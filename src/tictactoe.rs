//! Bitboard tic-tac-toe.
use vstd::prelude::*;

verus! {

/// Number of tiles on the board.
pub const BOARD_SIZE: usize = 9;

/// Whether bit `i` of `v` is set.
pub open spec fn has_bit(v: u16, i: u16) -> bool {
    v & (1u16 << i) != 0u16
}

/// Number of set bits of `v` among its lowest `n` bits.
pub open spec fn count_bits(v: u16, n: nat) -> nat
    decreases n,
{
    if n == 0 {
        0
    } else {
        count_bits(v, (n - 1) as nat) + if has_bit(v, (n - 1) as u16) {
            1nat
        } else {
            0nat
        }
    }
}

/// Possible values of a tile on the board: occupied by an X, by an O, or empty.
#[derive(Debug, Clone, Copy, PartialEq, Eq, Structural)]
pub enum Tile {
    X,
    O,
    Empty,
}

/// Errors of board access.
#[derive(Debug, Clone, Copy, PartialEq, Eq, Structural)]
pub enum GameError {
    OutOfBoundsError,
    InvalidMoveError,
}

impl Tile {
    /// The number that a tile contributes to a board hash.
    pub open spec fn spec_hash(self) -> u16 {
        match self {
            Tile::Empty => 0,
            Tile::X => 1,
            Tile::O => 2,
        }
    }

    /// Text of a tile; `empty` (or a space) stands for an empty tile.
    pub open spec fn spec_str(self, empty: Option<Seq<char>>) -> Seq<char> {
        match self {
            Tile::X => "X"@,
            Tile::O => "O"@,
            Tile::Empty => match empty {
                Some(x) => x,
                None => " "@,
            },
        }
    }

    /// String representation of the tile; `empty` stands for the empty tile.
    pub fn str<'a>(&self, empty: Option<&'a str>) -> (r: &'a str)
        ensures
            r@ == self.spec_str(
                match empty {
                    Some(x) => Some(x@),
                    None => None,
                },
            ),
    {
        match self {
            Tile::X => "X",
            Tile::O => "O",
            Tile::Empty => match empty {
                Some(x) => x,
                None => " ",
            },
        }
    }

    /// Hash value of the tile.
    pub fn hash(&self) -> (r: u16)
        ensures
            r == self.spec_hash(),
    {
        match self {
            Tile::Empty => 0,
            Tile::X => 1,
            Tile::O => 2,
        }
    }
}

/// Bitboard of a tic-tac-toe position.
#[derive(Debug, Clone, Copy, PartialEq, Eq, Structural)]
pub struct Board {
    /// Whether each tile is occupied: bit set = occupied.
    pub occupied: u16,
    /// For an occupied tile, who holds it: bit set = X, clear = O.
    pub player: u16,
}

impl Default for Board {
    /// The empty board.
    fn default() -> (r: Self)
        ensures
            r.occupied == 0 && r.player == 0,
    {
        Board { occupied: 0, player: 0 }
    }
}

impl Board {
    /// Content of tile `i`.
    pub open spec fn tile_at(self, i: u16) -> Tile {
        if !has_bit(self.occupied, i) {
            Tile::Empty
        } else if has_bit(self.player, i) {
            Tile::X
        } else {
            Tile::O
        }
    }

    /// Number of occupied tiles.
    pub open spec fn moves_made(self) -> nat {
        count_bits(self.occupied, 16)
    }

    /// The player to move: X after an even number of moves.
    pub open spec fn spec_turn(self) -> Tile {
        if self.moves_made() % 2 == 0 {
            Tile::X
        } else {
            Tile::O
        }
    }

    /// Gets the tile at `index`.
    pub fn get(&self, index: usize) -> (r: Result<Tile, GameError>)
        ensures
            index > BOARD_SIZE ==> r == Err::<Tile, GameError>(GameError::OutOfBoundsError),
            index <= BOARD_SIZE ==> r == Ok::<Tile, GameError>(self.tile_at(index as u16)),
    {
        if index > BOARD_SIZE {
            Err(GameError::OutOfBoundsError)
        } else {
            let i: u16 = index as u16;
            let occupied = (1u16 << i) & self.occupied != 0;
            let player = (1u16 << i) & self.player != 0;
            proof {
                let occ = self.occupied;
                let pl = self.player;
                assert((1u16 << i) & occ == occ & (1u16 << i)) by (bit_vector);
                assert((1u16 << i) & pl == pl & (1u16 << i)) by (bit_vector);
            }
            if !occupied {
                Ok(Tile::Empty)
            } else if player {
                Ok(Tile::X)
            } else {
                Ok(Tile::O)
            }
        }
    }
}


/// The words of `b` after writing `tile` at tile `i`.
pub open spec fn set_bits(b: Board, i: u16, tile: Tile) -> Board {
    let bit = 1u16 << i;
    match tile {
        Tile::Empty => Board { occupied: b.occupied & !bit, player: b.player },
        Tile::X => Board { occupied: b.occupied | bit, player: b.player | bit },
        Tile::O => Board { occupied: b.occupied | bit, player: b.player & !bit },
    }
}

/// The board after the player to move marks tile `m`.
pub open spec fn after_move(b: Board, m: u16) -> Board {
    set_bits(b, m, b.spec_turn())
}

/// Setting and clearing one bit of a board word.
proof fn lemma_bit_update(v: u16, i: u16, j: u16)
    by (bit_vector)
    requires
        i < 16,
        j < 16,
    ensures
        has_bit(v | (1u16 << i), j) == (j == i || has_bit(v, j)),
        has_bit(v & !(1u16 << i), j) == (j != i && has_bit(v, j)),
        (1u16 << i) & v == v & (1u16 << i),
{
}

/// Occupying one more tile raises the count of occupied tiles by one.
proof fn lemma_count_one_more(a: u16, b: u16, i: u16, n: nat)
    requires
        i < 16,
        n <= 16,
        !has_bit(a, i),
        forall|j: u16| j < 16 ==> #[trigger] has_bit(b, j) == (j == i || has_bit(a, j)),
    ensures
        count_bits(b, n) == count_bits(a, n) + if (i as nat) < n {
            1nat
        } else {
            0nat
        },
    decreases n,
{
    if n > 0 {
        lemma_count_one_more(a, b, i, (n - 1) as nat);
        assert(has_bit(b, (n - 1) as u16) == ((n - 1) as u16 == i || has_bit(a, (n - 1) as u16)));
    }
}

impl Board {
    /// Number of occupied tiles, counted bit by bit.
    fn count_occupied(&self) -> (r: u32)
        ensures
            r as nat == self.moves_made(),
            r <= 16,
    {
        let mut n: u32 = 0;
        let mut k: u16 = 0;
        while k < 16
            invariant
                k <= 16,
                n as nat == count_bits(self.occupied, k as nat),
                n <= k,
            decreases 16 - k,
        {
            proof {
                lemma_bit_update(self.occupied, k, k);
            }
            if (1u16 << k) & self.occupied != 0 {
                n = n + 1;
            }
            k = k + 1;
        }
        n
    }

    /// Sets the tile at `index`.
    pub fn set(&mut self, index: usize, tile: Tile) -> (r: Result<(), GameError>)
        ensures
            index > BOARD_SIZE ==> r == Err::<(), GameError>(GameError::OutOfBoundsError)
                && *final(self) == *old(self),
            index <= BOARD_SIZE ==> r == Ok::<(), GameError>(()) && forall|j: u16|
                j < 16 ==> #[trigger] final(self).tile_at(j) == if j == index as u16 {
                    tile
                } else {
                    old(self).tile_at(j)
                },
            index <= BOARD_SIZE ==> *final(self) == set_bits(*old(self), index as u16, tile),
    {
        if index > BOARD_SIZE {
            Err(GameError::OutOfBoundsError)
        } else {
            let i: u16 = index as u16;
            let m: u16 = 1u16 << i;
            let ghost occ = self.occupied;
            let ghost pl = self.player;
            match tile {
                Tile::Empty => {
                    self.occupied = self.occupied & !m;
                },
                Tile::X => {
                    self.occupied = self.occupied | m;
                    self.player = self.player | m;
                },
                Tile::O => {
                    self.occupied = self.occupied | m;
                    self.player = self.player & !m;
                },
            }
            assert forall|j: u16| j < 16 implies #[trigger] self.tile_at(j) == if j == i {
                tile
            } else {
                Board { occupied: occ, player: pl }.tile_at(j)
            } by {
                lemma_bit_update(occ, i, j);
                lemma_bit_update(pl, i, j);
            }
            Ok(())
        }
    }

    /// The player whose turn it is: X after an even number of moves, else O.
    pub fn turn(&self) -> (r: Tile)
        ensures
            r == self.spec_turn(),
    {
        let moves = self.count_occupied();
        if moves % 2 == 0 {
            Tile::X
        } else {
            Tile::O
        }
    }

    /// Puts the mark of the player to move on the tile at `index`.
    pub fn act(&mut self, index: usize) -> (r: Result<(), GameError>)
        ensures
            index > BOARD_SIZE ==> r == Err::<(), GameError>(GameError::OutOfBoundsError)
                && *final(self) == *old(self),
            index <= BOARD_SIZE && old(self).tile_at(index as u16) != Tile::Empty ==> r == Err::<
                (),
                GameError,
            >(GameError::InvalidMoveError) && *final(self) == *old(self),
            index <= BOARD_SIZE && old(self).tile_at(index as u16) == Tile::Empty ==> r == Ok::<
                (),
                GameError,
            >(()) && *final(self) == after_move(*old(self), index as u16)
                && final(self).moves_made() == old(self).moves_made() + 1 && forall|j: u16|
                j < 16 ==> #[trigger] final(self).tile_at(j) == if j == index as u16 {
                    old(self).spec_turn()
                } else {
                    old(self).tile_at(j)
                },
    {
        let current = self.get(index);
        match current {
            Err(e) => Err(e),
            Ok(Tile::Empty) => {
                let ghost before = *self;
                let t = self.turn();
                let r = self.set(index, t);
                proof {
                    let i = index as u16;
                    assert forall|j: u16| j < 16 implies #[trigger] has_bit(self.occupied, j) == (
                    j == i || has_bit(before.occupied, j)) by {
                        assert(self.tile_at(j) == if j == i {
                            t
                        } else {
                            before.tile_at(j)
                        });
                    }
                    lemma_count_one_more(before.occupied, self.occupied, i, 16);
                }
                r
            },
            Ok(_) => Err(GameError::InvalidMoveError),
        }
    }
}


/// The eight winning lines, as bit masks over the tiles.
pub open spec fn win_line(k: int) -> u16 {
    if k == 0 {
        0b111_000_000
    } else if k == 1 {
        0b000_111_000
    } else if k == 2 {
        0b000_000_111
    } else if k == 3 {
        0b100_100_100
    } else if k == 4 {
        0b010_010_010
    } else if k == 5 {
        0b001_001_001
    } else if k == 6 {
        0b100_010_001
    } else {
        0b001_010_100
    }
}

/// The first line from `k` on that one player fills, checked X first: its
/// owner, or `Empty` when there is none.
pub open spec fn winner_from(b: Board, k: int) -> Tile
    decreases 8 - k,
{
    if k >= 8 || k < 0 {
        Tile::Empty
    } else {
        let line = win_line(k);
        if b.occupied & b.player & line == line {
            Tile::X
        } else if b.occupied & !b.player & line == line {
            Tile::O
        } else {
            winner_from(b, k + 1)
        }
    }
}

/// Empty tiles among the first `n`, in increasing order.
pub open spec fn empty_tiles(b: Board, n: nat) -> Seq<usize>
    decreases n,
{
    if n == 0 {
        Seq::empty()
    } else {
        let s = empty_tiles(b, (n - 1) as nat);
        if has_bit(b.occupied, (n - 1) as u16) {
            s
        } else {
            s.push((n - 1) as usize)
        }
    }
}

/// Tile that symmetry `t` (four rotations, then four reflections) puts at
/// position `k` of the read-out order.
pub open spec fn transform(t: int, k: int) -> int {
    let r = k / 3;
    let c = k % 3;
    if t == 0 {
        k
    } else if t == 1 {
        3 * c + (2 - r)
    } else if t == 2 {
        8 - k
    } else if t == 3 {
        3 * (2 - c) + r
    } else if t == 4 {
        3 * (2 - r) + c
    } else if t == 5 {
        3 * r + (2 - c)
    } else if t == 6 {
        3 * (2 - c) + (2 - r)
    } else {
        3 * c + r
    }
}

/// Base-3 number read from the first `n` tiles of the board seen through
/// symmetry `t`, first tile most significant.
pub open spec fn sym_hash(b: Board, t: int, n: nat) -> int
    decreases n,
{
    if n == 0 {
        0
    } else {
        sym_hash(b, t, (n - 1) as nat) * 3 + b.tile_at(transform(t, n - 1) as u16).spec_hash()
    }
}

/// Smallest `sym_hash` over the symmetries below `t` (`t >= 1`).
pub open spec fn min_hash(b: Board, t: nat) -> int
    decreases t,
{
    if t <= 1 {
        sym_hash(b, 0, 9)
    } else {
        let m = min_hash(b, (t - 1) as nat);
        let h = sym_hash(b, t - 1, 9);
        if h < m {
            h
        } else {
            m
        }
    }
}

/// Largest base-3 number of `n` digits.
spec fn cap(n: nat) -> int
    decreases n,
{
    if n == 0 {
        0
    } else {
        3 * cap((n - 1) as nat) + 2
    }
}

proof fn lemma_cap_mono(k: nat, m: nat)
    requires
        k <= m,
    ensures
        0 <= cap(k) <= cap(m),
    decreases m,
{
    if k < m {
        lemma_cap_mono(k, (m - 1) as nat);
    } else if m > 0 {
        lemma_cap_mono((m - 1) as nat, (m - 1) as nat);
    }
}

proof fn lemma_sym_hash_bound(b: Board, t: int, n: nat)
    ensures
        0 <= sym_hash(b, t, n) <= cap(n),
    decreases n,
{
    if n > 0 {
        lemma_sym_hash_bound(b, t, (n - 1) as nat);
    }
}

/// Bit mask of winning line `k`.
fn win_line_mask(k: usize) -> (r: u16)
    requires
        k < 8,
    ensures
        r == win_line(k as int),
{
    match k {
        0 => 0b111_000_000,
        1 => 0b000_111_000,
        2 => 0b000_000_111,
        3 => 0b100_100_100,
        4 => 0b010_010_010,
        5 => 0b001_001_001,
        6 => 0b100_010_001,
        _ => 0b001_010_100,
    }
}

/// Executable form of `transform`.
fn transform_index(t: usize, k: usize) -> (r: usize)
    requires
        t < 8,
        k < 9,
    ensures
        r as int == transform(t as int, k as int),
        r < 9,
{
    let r = k / 3;
    let c = k % 3;
    match t {
        0 => k,
        1 => 3 * c + (2 - r),
        2 => 8 - k,
        3 => 3 * (2 - c) + r,
        4 => 3 * (2 - r) + c,
        5 => 3 * r + (2 - c),
        6 => 3 * (2 - c) + (2 - r),
        _ => 3 * c + r,
    }
}

impl Board {
    /// The current winner, if there is one, else `Empty`.
    pub fn winner(&self) -> (r: Tile)
        ensures
            r == winner_from(*self, 0),
    {
        let x_pos = self.occupied & self.player;
        let o_pos = self.occupied & !self.player;
        let mut k: usize = 0;
        while k < 8
            invariant
                k <= 8,
                x_pos == self.occupied & self.player,
                o_pos == self.occupied & !self.player,
                winner_from(*self, 0) == winner_from(*self, k as int),
            decreases 8 - k,
        {
            let line = win_line_mask(k);
            if x_pos & line == line {
                return Tile::X;
            }
            if o_pos & line == line {
                return Tile::O;
            }
            k = k + 1;
        }
        Tile::Empty
    }

    /// Indices of the empty tiles, in increasing order.
    pub fn valid_moves(&self) -> (r: Vec<usize>)
        ensures
            r@ == empty_tiles(*self, BOARD_SIZE as nat),
    {
        let mut r: Vec<usize> = Vec::new();
        let mut x: usize = 0;
        while x < BOARD_SIZE
            invariant
                x <= BOARD_SIZE,
                r@ == empty_tiles(*self, x as nat),
            decreases BOARD_SIZE - x,
        {
            proof {
                lemma_bit_update(self.occupied, x as u16, x as u16);
            }
            if self.occupied & (1u16 << (x as u16)) == 0 {
                r.push(x);
            }
            x = x + 1;
        }
        r
    }

    /// Hash of the position that is the same for all its rotations and
    /// reflections: the least base-3 reading over the eight symmetries.
    pub fn invariant_hash(&self) -> (r: u16)
        ensures
            r as int == min_hash(*self, 8),
    {
        let mut hash_values: Vec<u16> = Vec::new();
        let mut x: usize = 0;
        while x < BOARD_SIZE
            invariant
                x <= BOARD_SIZE,
                hash_values@.len() == x,
                forall|k: int|
                    0 <= k < x ==> hash_values@[k] == #[trigger] self.tile_at(k as u16).spec_hash(),
            decreases BOARD_SIZE - x,
        {
            let tile = match self.get(x) {
                Ok(t) => t,
                Err(_) => Tile::Empty,
            };
            hash_values.push(tile.hash());
            x = x + 1;
        }
        proof {
            reveal_with_fuel(cap, 10);
            lemma_cap_mono(8, 9);
        }
        let mut best: u16 = 0;
        let mut t: usize = 0;
        while t < 8
            invariant
                t <= 8,
                hash_values@.len() == 9,
                forall|k: int|
                    0 <= k < 9 ==> hash_values@[k] == #[trigger] self.tile_at(k as u16).spec_hash(),
                t >= 1 ==> best as int == min_hash(*self, t as nat),
                cap(8) == 6560,
            decreases 8 - t,
        {
            let mut acc: u16 = 0;
            let mut k: usize = 0;
            while k < 9
                invariant
                    t < 8,
                    k <= 9,
                    hash_values@.len() == 9,
                    forall|j: int|
                        0 <= j < 9 ==> hash_values@[j] == #[trigger] self.tile_at(
                            j as u16,
                        ).spec_hash(),
                    acc as int == sym_hash(*self, t as int, k as nat),
                    cap(8) == 6560,
                decreases 9 - k,
            {
                proof {
                    lemma_sym_hash_bound(*self, t as int, k as nat);
                    lemma_cap_mono(k as nat, 8);
                }
                let idx = transform_index(t, k);
                assert(hash_values@[idx as int] == self.tile_at(idx as u16).spec_hash());
                acc = acc * 3 + hash_values[idx];
                k = k + 1;
            }
            if t == 0 || acc < best {
                best = acc;
            }
            t = t + 1;
        }
        best
    }
}


/// Label shown for an empty tile: its index.
pub open spec fn tile_label(i: int) -> Seq<char> {
    if i == 0 {
        "0"@
    } else if i == 1 {
        "1"@
    } else if i == 2 {
        "2"@
    } else if i == 3 {
        "3"@
    } else if i == 4 {
        "4"@
    } else if i == 5 {
        "5"@
    } else if i == 6 {
        "6"@
    } else if i == 7 {
        "7"@
    } else {
        "8"@
    }
}

/// Text of tile `i`: its mark, or its index when empty.
pub open spec fn cell_text(b: Board, i: int) -> Seq<char> {
    b.tile_at(i as u16).spec_str(Some(tile_label(i)))
}

/// Text of row `r`: three cells split by bars, then a newline.
pub open spec fn row_text(b: Board, r: int) -> Seq<char> {
    cell_text(b, 3 * r) + "|"@ + cell_text(b, 3 * r + 1) + "|"@ + cell_text(b, 3 * r + 2) + "\n"@
}

/// Text of the board: three rows split by rules of dashes.
pub open spec fn board_text(b: Board) -> Seq<char> {
    row_text(b, 0) + "-----\n"@ + row_text(b, 1) + "-----\n"@ + row_text(b, 2)
}

fn label_of(i: usize) -> (r: &'static str)
    requires
        i < 9,
    ensures
        r@ == tile_label(i as int),
{
    match i {
        0 => "0",
        1 => "1",
        2 => "2",
        3 => "3",
        4 => "4",
        5 => "5",
        6 => "6",
        7 => "7",
        _ => "8",
    }
}

impl Board {
    /// Appends the text of tile `i`.
    fn push_cell(&self, s: &mut String, i: usize)
        requires
            i < 9,
        ensures
            final(s)@ == old(s)@ + cell_text(*self, i as int),
    {
        let tile = match self.get(i) {
            Ok(t) => t,
            Err(_) => Tile::Empty,
        };
        s.append(tile.str(Some(label_of(i))));
    }

    /// Appends the text of row `row`.
    fn push_row(&self, s: &mut String, row: usize)
        requires
            row < 3,
        ensures
            final(s)@ =~= old(s)@ + row_text(*self, row as int),
    {
        self.push_cell(s, 3 * row);
        s.append("|");
        self.push_cell(s, 3 * row + 1);
        s.append("|");
        self.push_cell(s, 3 * row + 2);
        s.append("\n");
    }

    /// Text of the board, row by row, with the index of each empty tile.
    pub fn render(&self) -> (r: String)
        ensures
            r@ == board_text(*self),
    {
        let mut s = String::new();
        self.push_row(&mut s, 0);
        s.append("-----\n");
        self.push_row(&mut s, 1);
        s.append("-----\n");
        self.push_row(&mut s, 2);
        assert(s@ =~= board_text(*self));
        s
    }
}


/// Hash-indexed table of position values. hashbrown's `HashMap` cannot be
/// declared to the verifier (its allocator bound names a private trait), so
/// the map sits in this opaque holder and is reached only through the
/// functions below.
#[verifier::external_body]
pub struct ValueTable {
    map: hashbrown::HashMap<u16, i8>,
}

/// The entries of a value table.
pub uninterp spec fn table_entries(t: ValueTable) -> Map<u16, i8>;

/// Relies on hashbrown's `HashMap::new`: a new map holds no entry.
#[verifier::external_body]
fn table_new() -> (r: ValueTable)
    ensures
        table_entries(r).dom() == Set::<u16>::empty(),
{
    ValueTable { map: hashbrown::HashMap::new() }
}

/// Relies on hashbrown's `HashMap::get`: the value stored under `key`, if any.
#[verifier::external_body]
fn table_get(t: &ValueTable, key: u16) -> (r: Option<i8>)
    ensures
        r == if table_entries(*t).contains_key(key) {
            Some(table_entries(*t)[key])
        } else {
            None::<i8>
        },
{
    t.map.get(&key).copied()
}

/// Relies on hashbrown's `HashMap::insert`: `key` maps to `value` afterwards,
/// every other entry stays.
#[verifier::external_body]
fn table_insert(t: &mut ValueTable, key: u16, value: i8)
    ensures
        table_entries(*final(t)) == table_entries(*old(t)).insert(key, value),
{
    t.map.insert(key, value);
}

/// Relies on hashbrown's `HashMap::len`: the number of entries.
#[verifier::external_body]
fn table_len(t: &ValueTable) -> (r: usize)
    ensures
        r as nat == table_entries(*t).len(),
{
    t.map.len()
}

proof fn lemma_count_le(v: u16, n: nat)
    ensures
        count_bits(v, n) <= n,
    decreases n,
{
    if n > 0 {
        lemma_count_le(v, (n - 1) as nat);
    }
}

proof fn lemma_empty_tiles(b: Board, n: nat)
    requires
        n <= 16,
    ensures
        forall|k: int|
            0 <= k < empty_tiles(b, n).len() ==> (#[trigger] empty_tiles(b, n)[k]) < n
                && !has_bit(b.occupied, empty_tiles(b, n)[k] as u16),
    decreases n,
{
    if n > 0 {
        lemma_empty_tiles(b, (n - 1) as nat);
        let s = empty_tiles(b, (n - 1) as nat);
        assert forall|k: int| 0 <= k < empty_tiles(b, n).len() implies (#[trigger] empty_tiles(
            b,
            n,
        )[k]) < n && !has_bit(b.occupied, empty_tiles(b, n)[k] as u16) by {
            if k < s.len() {
                assert(empty_tiles(b, n)[k] == s[k]);
            }
        }
    }
}

proof fn lemma_empty_tiles_increasing(b: Board, n: nat)
    requires
        n <= 16,
    ensures
        forall|i: int, j: int|
            0 <= i < j < empty_tiles(b, n).len() ==> #[trigger] empty_tiles(b, n)[i] < #[trigger] empty_tiles(b, n)[j],
    decreases n,
{
    if n > 0 {
        lemma_empty_tiles_increasing(b, (n - 1) as nat);
        lemma_empty_tiles(b, (n - 1) as nat);
        let s = empty_tiles(b, (n - 1) as nat);
        assert forall|i: int, j: int| 0 <= i < j < empty_tiles(b, n).len() implies #[trigger] empty_tiles(b, n)[i]
            < #[trigger] empty_tiles(b, n)[j] by {
            assert(empty_tiles(b, n)[i] == s[i]);
            if j < s.len() {
                assert(empty_tiles(b, n)[j] == s[j]);
            }
        }
    }
}

/// Table key of the position after the player to move marks tile `m`.
pub open spec fn child_key(b: Board, m: usize) -> u16 {
    min_hash(after_move(b, m as u16), 8) as u16
}

/// `r` is the minimax value of `b` over the values that `table` holds for
/// the positions after each move: their maximum when X moves, their minimum
/// when O moves.
pub open spec fn minimax_step(b: Board, table: Map<u16, i8>, r: i8) -> bool {
    let moves = empty_tiles(b, 9);
    &&& forall|k: int| 0 <= k < moves.len() ==> table.contains_key(#[trigger] child_key(b, moves[k]))
    &&& exists|k: int| 0 <= k < moves.len() && table[#[trigger] child_key(b, moves[k])] == r
    &&& b.spec_turn() == Tile::X ==> forall|k: int|
        0 <= k < moves.len() ==> table[#[trigger] child_key(b, moves[k])] <= r
    &&& b.spec_turn() == Tile::O ==> forall|k: int|
        0 <= k < moves.len() ==> table[#[trigger] child_key(b, moves[k])] >= r
}

/// Minimax solver that remembers the value of each position up to symmetry.
pub struct SolutionTable {
    value_table: ValueTable,
}

impl Default for SolutionTable {
    /// An empty table.
    fn default() -> (r: Self)
        ensures
            r.entries() == Map::<u16, i8>::empty(),
    {
        SolutionTable::new()
    }
}

impl SolutionTable {
    /// The entries remembered so far, keyed by `invariant_hash`.
    pub closed spec fn entries(self) -> Map<u16, i8> {
        table_entries(self.value_table)
    }

    /// An empty table.
    pub fn new() -> (r: Self)
        ensures
            r.entries() == Map::<u16, i8>::empty(),
    {
        SolutionTable { value_table: table_new() }
    }

    /// Number of positions whose value is remembered.
    pub fn len(&self) -> (r: usize)
        ensures
            r as nat == self.entries().len(),
    {
        table_len(&self.value_table)
    }

    /// Minimax value of `board`, positive when X wins: a win counts one more
    /// than the number of empty tiles left; a full board with no line is 0.
    /// Values are remembered by `invariant_hash` and reused.
    pub fn eval_recursive(&mut self, board: &Board) -> (r: i8)
        ensures
            ({
                let key = min_hash(*board, 8) as u16;
                let before = old(self).entries();
                let after = final(self).entries();
                &&& after.contains_key(key) && after[key] == r
                &&& forall|k: u16| #[trigger]
                    before.contains_key(k) ==> after.contains_key(k) && after[k] == before[k]
                &&& before.contains_key(key) ==> r == before[key]
                &&& !before.contains_key(key) && winner_from(*board, 0) == Tile::X ==> r
                    == BOARD_SIZE - board.moves_made() + 1
                &&& !before.contains_key(key) && winner_from(*board, 0) == Tile::O ==> r == -(
                BOARD_SIZE - board.moves_made() + 1)
                &&& !before.contains_key(key) && winner_from(*board, 0) == Tile::Empty
                    && empty_tiles(*board, 9).len() == 0 ==> r == 0
                &&& !before.contains_key(key) && winner_from(*board, 0) == Tile::Empty
                    && empty_tiles(*board, 9).len() > 0 ==> minimax_step(*board, after, r)
            }),
        decreases 16 - board.moves_made(),
    {
        proof {
            lemma_count_le(board.occupied, 16);
        }
        let hash = board.invariant_hash();
        match table_get(&self.value_table, hash) {
            Some(x) => x,
            None => {
                let w = board.winner();
                let moves = board.count_occupied();
                if w == Tile::X {
                    let value: i8 = BOARD_SIZE as i8 - moves as i8 + 1;
                    table_insert(&mut self.value_table, hash, value);
                    value
                } else if w == Tile::O {
                    let value: i8 = -(BOARD_SIZE as i8 - moves as i8 + 1);
                    table_insert(&mut self.value_table, hash, value);
                    value
                } else {
                    let valid_moves = board.valid_moves();
                    if valid_moves.len() == 0 {
                        let value: i8 = 0;
                        table_insert(&mut self.value_table, hash, value);
                        value
                    } else {
                        proof {
                            lemma_empty_tiles(*board, 9);
                        }
                        let x_to_move = board.turn() == Tile::X;
                        let ghost start = self.entries();
                        let ghost mut vals: Seq<i8> = Seq::empty();
                        let ghost mut best_at: int = 0;
                        let mut best: i8 = 0;
                        let mut k: usize = 0;
                        while k < valid_moves.len()
                            invariant
                                k <= valid_moves@.len(),
                                valid_moves@ == empty_tiles(*board, 9),
                                board.moves_made() <= 16,
                                x_to_move == (board.spec_turn() == Tile::X),
                                forall|j: int|
                                    0 <= j < valid_moves@.len() ==> (#[trigger] valid_moves@[j])
                                        < 9 && !has_bit(board.occupied, valid_moves@[j] as u16),
                                forall|key: u16| #[trigger]
                                    start.contains_key(key) ==> self.entries().contains_key(key)
                                        && self.entries()[key] == start[key],
                                vals.len() == k,
                                forall|j: int|
                                    0 <= j < k ==> self.entries().contains_key(
                                        #[trigger] child_key(*board, valid_moves@[j]),
                                    ) && self.entries()[child_key(*board, valid_moves@[j])]
                                        == vals[j],
                                k > 0 ==> 0 <= best_at < k && vals[best_at] == best,
                                forall|j: int|
                                    0 <= j < k ==> if x_to_move {
                                        #[trigger] vals[j] <= best
                                    } else {
                                        vals[j] >= best
                                    },
                            decreases valid_moves.len() - k,
                        {
                            let i = valid_moves[k];
                            let mut new_board = *board;
                            let _ = new_board.act(i);
                            proof {
                                lemma_count_le(new_board.occupied, 16);
                            }
                            let ghost mid = self.entries();
                            let v = self.eval_recursive(&new_board);
                            proof {
                                assert(new_board == after_move(*board, i as u16));
                                assert forall|j: int| 0 <= j < k implies self.entries().contains_key(
                                    #[trigger] child_key(*board, valid_moves@[j]),
                                ) && self.entries()[child_key(*board, valid_moves@[j])]
                                    == vals[j] by {
                                    assert(mid.contains_key(child_key(*board, valid_moves@[j])));
                                }
                                vals = vals.push(v);
                            }
                            if k == 0 || (x_to_move && v > best) || (!x_to_move && v < best) {
                                best = v;
                                proof {
                                    best_at = k as int;
                                }
                            }
                            k = k + 1;
                        }
                        let ghost before_insert = self.entries();
                        table_insert(&mut self.value_table, hash, best);
                        proof {
                            let moves = empty_tiles(*board, 9);
                            let after = self.entries();
                            assert forall|j: int| 0 <= j < moves.len() implies after.contains_key(
                                #[trigger] child_key(*board, moves[j]),
                            ) && (after[child_key(*board, moves[j])] == vals[j]
                                || after[child_key(*board, moves[j])] == best) by {
                                assert(before_insert.contains_key(child_key(*board, valid_moves@[j])));
                            }
                            assert(after[child_key(*board, moves[best_at])] == best);
                        }
                        best
                    }
                }
            },
        }
    }

    /// Move that minimax picks for the player to move: the last of the best
    /// empty tiles by `eval_recursive`, or 0 when the board is full.
    pub fn solve(&mut self, board: &Board) -> (r: usize)
        ensures
            empty_tiles(*board, 9).len() == 0 ==> r == 0,
            empty_tiles(*board, 9).len() > 0 ==> ({
                let moves = empty_tiles(*board, 9);
                let after = final(self).entries();
                &&& moves.contains(r)
                &&& forall|k: int|
                    0 <= k < moves.len() ==> after.contains_key(#[trigger] child_key(*board, moves[k]))
                &&& after.contains_key(child_key(*board, r))
                &&& board.spec_turn() == Tile::X ==> forall|k: int|
                    0 <= k < moves.len() ==> after[#[trigger] child_key(*board, moves[k])]
                        <= after[child_key(*board, r)]
                &&& board.spec_turn() == Tile::O ==> forall|k: int|
                    0 <= k < moves.len() ==> after[#[trigger] child_key(*board, moves[k])]
                        >= after[child_key(*board, r)]
                &&& forall|k: int|
                    0 <= k < moves.len() && after[#[trigger] child_key(*board, moves[k])]
                        == after[child_key(*board, r)] ==> moves[k] <= r
            }),
            forall|k: u16| #[trigger]
                old(self).entries().contains_key(k) ==> final(self).entries().contains_key(k)
                    && final(self).entries()[k] == old(self).entries()[k],
    {
        proof {
            lemma_empty_tiles(*board, 9);
            lemma_empty_tiles_increasing(*board, 9);
            lemma_count_le(board.occupied, 16);
        }
        let empty = board.valid_moves();
        let x_to_move = board.turn() == Tile::X;
        let ghost start = self.entries();
        let ghost mut vals: Seq<i8> = Seq::empty();
        let mut best_index: usize = 0;
        let mut best: i8 = if x_to_move {
            i8::MIN
        } else {
            i8::MAX
        };
        let mut k: usize = 0;
        while k < empty.len()
            invariant
                k <= empty@.len(),
                empty@ == empty_tiles(*board, 9),
                board.moves_made() <= 16,
                x_to_move == (board.spec_turn() == Tile::X),
                forall|j: int|
                    0 <= j < empty@.len() ==> (#[trigger] empty@[j]) < 9 && !has_bit(
                        board.occupied,
                        empty@[j] as u16,
                    ),
                k > 0 ==> empty@.contains(best_index),
                k == 0 ==> best_index == 0 && best == if x_to_move {
                    i8::MIN
                } else {
                    i8::MAX
                },
                forall|key: u16| #[trigger]
                    start.contains_key(key) ==> self.entries().contains_key(key)
                        && self.entries()[key] == start[key],
                vals.len() == k,
                forall|j: int|
                    0 <= j < k ==> self.entries().contains_key(
                        #[trigger] child_key(*board, empty@[j]),
                    ) && self.entries()[child_key(*board, empty@[j])] == vals[j],
                k > 0 ==> self.entries().contains_key(child_key(*board, best_index))
                    && self.entries()[child_key(*board, best_index)] == best,
                forall|j: int|
                    0 <= j < k ==> if x_to_move {
                        #[trigger] vals[j] <= best
                    } else {
                        vals[j] >= best
                    },
                forall|i: int, j: int|
                    0 <= i < j < empty@.len() ==> #[trigger] empty@[i] < #[trigger] empty@[j],
                forall|j: int| 0 <= j < k && #[trigger] vals[j] == best ==> empty@[j] <= best_index,
            decreases empty.len() - k,
        {
            let i = empty[k];
            assert(empty@[k as int] == i);
            let mut new_board = *board;
            let _ = new_board.act(i);
            proof {
                lemma_count_le(new_board.occupied, 16);
            }
            let ghost mid = self.entries();
            let v = self.eval_recursive(&new_board);
            proof {
                assert(new_board == after_move(*board, i as u16));
                assert forall|j: int| 0 <= j < k implies self.entries().contains_key(
                    #[trigger] child_key(*board, empty@[j]),
                ) && self.entries()[child_key(*board, empty@[j])] == vals[j] by {
                    assert(mid.contains_key(child_key(*board, empty@[j])));
                }
                if k > 0 {
                    assert(mid.contains_key(child_key(*board, best_index)));
                }
                vals = vals.push(v);
            }
            if (x_to_move && !(best > v)) || (!x_to_move && !(best < v)) {
                proof {
                    assert forall|j: int| 0 <= j < k + 1 && #[trigger] vals[j] == v implies empty@[j] <= i by {
                        if j < k {
                            assert(empty@[j] < empty@[k as int]);
                        }
                    }
                }
                best = v;
                best_index = i;
            }
            k = k + 1;
        }
        best_index
    }
}

} // verus!
