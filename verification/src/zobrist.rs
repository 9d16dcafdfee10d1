//! Zobrist keys: one fixed pseudo-random 64-bit key per cell and player.
use vstd::prelude::*;
use vstd::wrapping::u64_specs::{wrapping_add, wrapping_mul};

verus! {

/// Starting state of the key generator.
pub const ZOBRIST_SEED: u64 = 0x2545_F491_4F6C_DD1D;

/// Increment of the key generator's state.
pub const ZOBRIST_GAMMA: u64 = 0x9E37_79B9_7F4A_7C15;

/// Number of keys: two players on each of the 361 cells.
pub const ZOBRIST_KEYS: usize = 722;

/// The output function of the splitmix64 generator.
pub open spec fn mix_spec(s: u64) -> u64 {
    let z1 = wrapping_mul(s ^ (s >> 30u64), 0xBF58_476D_1CE4_E5B9u64);
    let z2 = wrapping_mul(z1 ^ (z1 >> 27u64), 0x94D0_49BB_1331_11EBu64);
    z2 ^ (z2 >> 31u64)
}

/// The generator's state when the `i`-th key is drawn.
pub open spec fn key_state(i: nat) -> u64
    decreases i,
{
    if i == 0 {
        wrapping_add(ZOBRIST_SEED, ZOBRIST_GAMMA)
    } else {
        wrapping_add(key_state((i - 1) as nat), ZOBRIST_GAMMA)
    }
}

/// The `i`-th key of the table.
pub open spec fn key_value(i: nat) -> u64 {
    mix_spec(key_state(i))
}

/// Index in the table of the key of player `p` on cell `(y, x)`.
pub open spec fn key_index(x: int, y: int, p: int) -> int {
    (y * 19 + x) * 2 + (p - 1)
}

/// The splitmix64 output function.
pub fn mix(s: u64) -> (r: u64)
    ensures r == mix_spec(s),
{
    let z1 = (s ^ (s >> 30)).wrapping_mul(0xBF58_476D_1CE4_E5B9);
    let z2 = (z1 ^ (z1 >> 27)).wrapping_mul(0x94D0_49BB_1331_11EB);
    z2 ^ (z2 >> 31)
}

/// The table of Zobrist keys.
pub struct Zobrist {
    table: Vec<u64>,
}

impl Zobrist {
    #[verifier::type_invariant]
    spec fn table_complete(self) -> bool {
        self.table@.len() == ZOBRIST_KEYS
    }

    /// The key of player `p` on cell `(y, x)`.
    pub closed spec fn key(self, x: int, y: int, p: int) -> u64 {
        self.table@[key_index(x, y, p)]
    }

    /// Builds the table, drawing the keys in cell order, player 1 first.
    pub fn new() -> (z: Zobrist)
        ensures
            forall|x: int, y: int, p: int|
                0 <= x < 19 && 0 <= y < 19 && 1 <= p <= 2 ==> #[trigger] z.key(x, y, p)
                    == key_value(key_index(x, y, p) as nat),
    {
        let mut table: Vec<u64> = Vec::new();
        let mut state: u64 = ZOBRIST_SEED;
        for i in 0..ZOBRIST_KEYS
            invariant
                table@.len() == i,
                forall|j: int| 0 <= j < i ==> table@[j] == key_value(j as nat),
                i == 0 ==> state == ZOBRIST_SEED,
                i > 0 ==> state == key_state((i - 1) as nat),
        {
            state = state.wrapping_add(ZOBRIST_GAMMA);
            let v = mix(state);
            table.push(v);
        }
        let z = Zobrist { table };
        assert forall|x: int, y: int, p: int|
            0 <= x < 19 && 0 <= y < 19 && 1 <= p <= 2 implies #[trigger] z.key(x, y, p)
                == key_value(key_index(x, y, p) as nat) by {
            assert(0 <= key_index(x, y, p) < 722) by (nonlinear_arith)
                requires 0 <= x < 19, 0 <= y < 19, 1 <= p <= 2;
        }
        z
    }

    /// The key of `player` on cell `(y, x)`.
    pub fn get_value(&self, x: usize, y: usize, player: u8) -> (r: u64)
        requires x < 19, y < 19, 1 <= player <= 2,
        ensures r == self.key(x as int, y as int, player as int),
    {
        proof {
            use_type_invariant(self);
            assert(0 <= key_index(x as int, y as int, player as int) < 722) by (nonlinear_arith)
                requires x < 19, y < 19, 1 <= player <= 2;
        }
        self.table[(y * 19 + x) * 2 + (player as usize - 1)]
    }
}

impl Clone for Zobrist {
    fn clone(&self) -> (r: Self)
        ensures
            forall|x: int, y: int, p: int| #[trigger] r.key(x, y, p) == self.key(x, y, p),
    {
        proof {
            use_type_invariant(self);
        }
        let table = self.table.clone();
        assert(table@ =~= self.table@);
        Zobrist { table }
    }
}

} // verus!
