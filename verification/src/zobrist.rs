//! Zobrist hashing of board grids.
//!
//! Every (row, column, kind) triple has a 64-bit key; the hash of a board is
//! the XOR of the keys of its occupied cells. The key table is an explicit,
//! immutable configuration object built once and passed by shared reference
//! into every operation that maintains a hash. Writing one cell changes the
//! hash by exactly the XOR of the old and new cell keys, which is what makes
//! incremental maintenance possible; `lemma_hash_one_change` states that.

use crate::grid::grid_view;
use crate::pieces::{is_piece, piece_index_spec, Color, BOARD_HEIGHT, BOARD_WIDTH, PIECE_COUNT};
use crate::rng;
use vstd::prelude::*;

verus! {

/// The seed of the generator that fills the key table.
pub const ZOBRIST_SEED: u64 = 0xDEADBEEF12345678;

/// The number of keys: one per (row, column, kind) triple.
pub const ZOBRIST_LEN: usize = 1540;

pub proof fn lemma_xor_zero(a: u64)
    ensures
        a ^ 0 == a,
        0 ^ a == a,
{
    assert(a ^ 0 == a && 0 ^ a == a) by (bit_vector);
}

pub proof fn lemma_xor_self(a: u64)
    ensures
        a ^ a == 0,
{
    assert(a ^ a == 0) by (bit_vector);
}

pub proof fn lemma_xor_comm(a: u64, b: u64)
    ensures
        a ^ b == b ^ a,
{
    assert(a ^ b == b ^ a) by (bit_vector);
}

pub proof fn lemma_xor_assoc(a: u64, b: u64, c: u64)
    ensures
        (a ^ b) ^ c == a ^ (b ^ c),
{
    assert((a ^ b) ^ c == a ^ (b ^ c)) by (bit_vector);
}

/// The key of cell value `c` at (row `y`, column `x`): the table entry for
/// its kind, or 0 for an empty cell, which leaves a hash unchanged.
pub open spec fn key_spec(z: Seq<u64>, y: int, x: int, c: Color) -> u64 {
    if is_piece(c) {
        z[(y * (BOARD_WIDTH as int) + x) * (PIECE_COUNT as int) + piece_index_spec(c)]
    } else {
        0
    }
}

/// The key contributed by flat cell `n` (row `n / 10`, column `n % 10`) of
/// grid `g`.
pub open spec fn cell_key(g: Seq<Seq<Color>>, z: Seq<u64>, n: int) -> u64 {
    key_spec(
        z,
        n / (BOARD_WIDTH as int),
        n % (BOARD_WIDTH as int),
        g[n / (BOARD_WIDTH as int)][n % (BOARD_WIDTH as int)],
    )
}

/// XOR of the keys of the first `n` cells in row-major order.
pub open spec fn hash_upto(g: Seq<Seq<Color>>, z: Seq<u64>, n: int) -> u64
    decreases n,
{
    if n <= 0 {
        0
    } else {
        hash_upto(g, z, n - 1) ^ cell_key(g, z, n - 1)
    }
}

/// The Zobrist hash of a board grid: XOR over all 220 cells.
pub open spec fn board_hash(g: Seq<Seq<Color>>, z: Seq<u64>) -> u64 {
    hash_upto(g, z, (BOARD_HEIGHT * BOARD_WIDTH) as int)
}

proof fn lemma_hash_upto_change(
    g1: Seq<Seq<Color>>,
    g2: Seq<Seq<Color>>,
    z: Seq<u64>,
    n0: int,
    n: int,
)
    requires
        0 <= n0,
        forall|m: int|
            0 <= m < n && m != n0 ==> #[trigger] cell_key(g1, z, m) == cell_key(g2, z, m),
    ensures
        n <= n0 ==> hash_upto(g2, z, n) == hash_upto(g1, z, n),
        n > n0 ==> hash_upto(g2, z, n) == hash_upto(g1, z, n) ^ cell_key(g1, z, n0) ^ cell_key(
            g2,
            z,
            n0,
        ),
    decreases n,
{
    if n <= 0 {
    } else {
        lemma_hash_upto_change(g1, g2, z, n0, n - 1);
        let h1 = hash_upto(g1, z, n - 1);
        let k1 = cell_key(g1, z, n - 1);
        let k2 = cell_key(g2, z, n - 1);
        let a = cell_key(g1, z, n0);
        let b = cell_key(g2, z, n0);
        if n - 1 == n0 {
            // h2(n) == h1(n-1) ^ k2 and we must show it equals (h1(n-1) ^ k1) ^ k1 ^ k2.
            lemma_xor_self(k1);
            lemma_xor_assoc(h1, k1, k1);
            lemma_xor_zero(h1);
            assert((h1 ^ k1) ^ k1 == h1);
        } else if n - 1 < n0 {
        } else {
            // h2(n-1) == h1(n-1) ^ a ^ b; XOR the common key k1 == k2 on both sides
            // and rearrange.
            assert(cell_key(g1, z, n - 1) == cell_key(g2, z, n - 1));
            lemma_xor_assoc(h1 ^ a, b, k1);
            lemma_xor_comm(b, k1);
            lemma_xor_assoc(h1 ^ a, k1, b);
            lemma_xor_assoc(h1, a, k1);
            lemma_xor_comm(a, k1);
            lemma_xor_assoc(h1, k1, a);
            // ((h1 ^ a) ^ b) ^ k1 == ((h1 ^ k1) ^ a) ^ b
            assert(((h1 ^ a) ^ b) ^ k1 == ((h1 ^ k1) ^ a) ^ b);
        }
    }
}

/// Changing the one cell at flat index `n0` changes the board hash by the
/// XOR of that cell's old and new keys.
pub proof fn lemma_hash_one_change(g1: Seq<Seq<Color>>, g2: Seq<Seq<Color>>, z: Seq<u64>, n0: int)
    requires
        0 <= n0 < BOARD_HEIGHT * BOARD_WIDTH,
        forall|m: int|
            0 <= m < BOARD_HEIGHT * BOARD_WIDTH && m != n0 ==> #[trigger] cell_key(g1, z, m)
                == cell_key(g2, z, m),
    ensures
        board_hash(g2, z) == board_hash(g1, z) ^ cell_key(g1, z, n0) ^ cell_key(g2, z, n0),
{
    lemma_hash_upto_change(g1, g2, z, n0, (BOARD_HEIGHT * BOARD_WIDTH) as int);
}

/// The hash of the all-empty grid is 0, as is the hash of any grid on its
/// all-empty cells.
pub proof fn lemma_hash_upto_empty(g: Seq<Seq<Color>>, z: Seq<u64>, n: int)
    requires
        forall|m: int| 0 <= m < n ==> #[trigger] cell_key(g, z, m) == 0,
    ensures
        hash_upto(g, z, n) == 0,
    decreases n,
{
    if n > 0 {
        lemma_hash_upto_empty(g, z, n - 1);
        lemma_xor_zero(0);
    }
}

/// The immutable Zobrist key table, one 64-bit key per (row, column, kind)
/// triple, filled from a seeded deterministic generator at construction.
pub struct Zobrist {
    keys: Vec<u64>,
}

impl Zobrist {
    /// Well-formedness: the table holds exactly one key per triple.
    pub closed spec fn wf(&self) -> bool {
        self.keys@.len() == ZOBRIST_LEN
    }

    /// The key sequence, the parameter of every hash specification.
    pub closed spec fn keys_seq(&self) -> Seq<u64> {
        self.keys@
    }

    /// Builds the key table from the fixed seed.
    pub fn new() -> (z: Zobrist)
        ensures
            z.wf(),
    {
        let mut rng = rng::small_rng_from_seed(ZOBRIST_SEED);
        let mut keys: Vec<u64> = Vec::new();
        let mut i: usize = 0;
        while i < ZOBRIST_LEN
            invariant
                i <= ZOBRIST_LEN,
                keys@.len() == i,
            decreases ZOBRIST_LEN - i,
        {
            let k = rng::next_u64(&mut rng);
            keys.push(k);
            i = i + 1;
        }
        Zobrist { keys }
    }

    /// Returns the key of cell value `c` at (row `y`, column `x`).
    pub fn key(&self, y: usize, x: usize, c: Color) -> (k: u64)
        requires
            self.wf(),
            y < BOARD_HEIGHT,
            x < BOARD_WIDTH,
        ensures
            k == key_spec(self.keys_seq(), y as int, x as int, c),
    {
        match c {
            Color::Empty => 0,
            Color::Random => 0,
            _ => {
                let idx = (y * BOARD_WIDTH + x) * PIECE_COUNT + crate::pieces::piece_index(c);
                self.keys[idx]
            },
        }
    }
}

/// Returns the Zobrist hash of a board computed from scratch; used at
/// construction and deserialization, after which hashes are maintained
/// incrementally.
pub fn hash_board(b: &Vec<Vec<Color>>, z: &Zobrist) -> (h: u64)
    requires
        z.wf(),
        grid_view(b@).len() == BOARD_HEIGHT,
        forall|y: int| 0 <= y < BOARD_HEIGHT ==> (#[trigger] grid_view(b@)[y]).len() == BOARD_WIDTH,
    ensures
        h == board_hash(grid_view(b@), z.keys_seq()),
{
    let ghost g = grid_view(b@);
    let mut h: u64 = 0;
    let mut n: usize = 0;
    while n < BOARD_HEIGHT * BOARD_WIDTH
        invariant
            n <= BOARD_HEIGHT * BOARD_WIDTH,
            z.wf(),
            grid_view(b@).len() == BOARD_HEIGHT,
            forall|y: int|
                0 <= y < BOARD_HEIGHT ==> (#[trigger] grid_view(b@)[y]).len() == BOARD_WIDTH,
            g == grid_view(b@),
            h == hash_upto(g, z.keys_seq(), n as int),
        decreases BOARD_HEIGHT * BOARD_WIDTH - n,
    {
        let y = n / BOARD_WIDTH;
        let x = n % BOARD_WIDTH;
        assert(y < BOARD_HEIGHT && x < BOARD_WIDTH) by {
            vstd::arithmetic::div_mod::lemma_mod_division_less_than_divisor(
                n as int,
                BOARD_WIDTH as int,
            );
        };
        proof {
            assert(b@[y as int]@ == g[y as int]);
        }
        let c = b[y][x];
        let k = z.key(y, x, c);
        assert(c == g[n as int / (BOARD_WIDTH as int)][n as int % (BOARD_WIDTH as int)]);
        h = h ^ k;
        n = n + 1;
    }
    h
}

} // verus!
