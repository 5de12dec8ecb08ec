//! Prefixed identifiers over a 58-character alphabet, with characters drawn
//! from a seeded generator or from positions supplied by the caller.
use vstd::prelude::*;
use vstd::utf8::encode_utf8;

use crate::generator::{advance, draws, lemma_draws_len, seeded_state, Gnrng, GnrngState};
use crate::text::{decimal, push_char, push_decimal};

verus! {

/// The identifier alphabet: no `0`, `O`, `I` or `l`.
pub const AVAILABLE_ALPHABET: &'static str = "123456789ABCDEFGHJKLMNPQRSTUVWXYZabcdefghijkmnopqrstuvwxyz";

/// The number of characters in the alphabet.
pub const ALPHABET_LEN: usize = 58;

/// The number of alphabet characters in an identifier when none is asked for.
pub const DEFAULT_SIZE: usize = 7;

/// The alphabet as a sequence of characters.
pub open spec fn alphabet() -> Seq<char> {
    AVAILABLE_ALPHABET@
}

/// The alphabet has `ALPHABET_LEN` characters.
pub proof fn lemma_alphabet_len()
    ensures
        alphabet().len() == ALPHABET_LEN,
{
    reveal_strlit("123456789ABCDEFGHJKLMNPQRSTUVWXYZabcdefghijkmnopqrstuvwxyz");
}

/// The category of an identifier, which fixes its prefix.
#[derive(Clone, Copy, Debug, PartialEq, Eq)]
pub enum IdType {
    User,
    Team,
    Project,
    Default,
}

impl IdType {
    /// The prefix of identifiers of this category.
    pub open spec fn prefix(self) -> Seq<char> {
        match self {
            IdType::User => seq!['u', '_'],
            IdType::Team => seq!['t', 'm', '_'],
            IdType::Project => seq!['p', '_'],
            IdType::Default => seq!['t', '_'],
        }
    }

    /// The prefix of identifiers of this category.
    pub fn get_prefix(&self) -> (r: &'static str)
        ensures
            r@ == self.prefix(),
    {
        match self {
            IdType::User => {
                proof {
                    reveal_strlit("u_");
                }
                "u_"
            },
            IdType::Team => {
                proof {
                    reveal_strlit("tm_");
                }
                "tm_"
            },
            IdType::Project => {
                proof {
                    reveal_strlit("p_");
                }
                "p_"
            },
            IdType::Default => {
                proof {
                    reveal_strlit("t_");
                }
                "t_"
            },
        }
    }
}

/// The requested size, or `DEFAULT_SIZE`.
pub open spec fn size_or_default(size: Option<usize>) -> nat {
    match size {
        Some(n) => n as nat,
        None => DEFAULT_SIZE as nat,
    }
}

/// The requested category, or `IdType::Default`.
pub open spec fn kind_or_default(id_type: Option<IdType>) -> IdType {
    match id_type {
        Some(t) => t,
        None => IdType::Default,
    }
}

/// The alphabet position for the raw draw `w`: the fraction `w / 2^32` scaled
/// by the alphabet length and truncated. (Done in binary floating point this
/// product is exact, and it is already below the alphabet length.)
pub open spec fn alphabet_index(w: u32) -> int {
    (w as int * 58) / 0x1_0000_0000
}

/// The identifier characters for the raw draws `ws`.
pub open spec fn id_chars(ws: Seq<u32>) -> Seq<char> {
    Seq::new(ws.len(), |i: int| alphabet()[alphabet_index(ws[i])])
}

/// The identifier of `size` characters of category `t` drawn from state `s`.
pub open spec fn id_from_state(s: GnrngState, size: nat, t: IdType) -> Seq<char> {
    t.prefix() + id_chars(draws(s, size))
}

/// The identifier of `size` characters of category `t` for the seed text `seed`.
pub open spec fn seeded_id(seed: Seq<char>, size: nat, t: IdType) -> Seq<char> {
    id_from_state(seeded_state(encode_utf8(seed)), size, t)
}

/// The seed of item `i` in a batch with base seed `base`: `base-i`.
pub open spec fn item_seed(base: Seq<char>, i: nat) -> Seq<char> {
    base + seq!['-'] + decimal(i)
}

/// The alphabet character for the raw draw `w`.
fn alphabet_char(w: u32) -> (c: char)
    ensures
        0 <= alphabet_index(w) < alphabet().len(),
        c == alphabet()[alphabet_index(w)],
{
    let scaled: u64 = (w as u64) * 58;
    let index: u64 = scaled >> 32u64;
    assert(scaled >> 32u64 == scaled / 0x1_0000_0000) by (bit_vector);
    proof {
        lemma_alphabet_len();
    }
    AVAILABLE_ALPHABET.get_char(index as usize)
}

/// Appends `size` identifier characters drawn from `rng`.
fn push_id_chars(id: &mut String, rng: &mut Gnrng, size: usize)
    ensures
        final(id)@ == old(id)@ + id_chars(draws(old(rng)@, size as nat)),
        final(rng)@ == advance(old(rng)@, size as nat),
{
    let ghost s0 = rng@;
    let ghost id0 = id@;
    let mut i: usize = 0;
    while i < size
        invariant
            i <= size,
            id@ == id0 + id_chars(draws(s0, i as nat)),
            rng@ == advance(s0, i as nat),
        decreases size - i,
    {
        let w = rng.next_u32();
        push_char(id, alphabet_char(w));
        i = i + 1;
        proof {
            lemma_draws_len(s0, (i - 1) as nat);
            assert(draws(s0, i as nat) == draws(s0, (i - 1) as nat).push(w));
            assert(id_chars(draws(s0, i as nat)) =~= id_chars(draws(s0, (i - 1) as nat)).push(
                alphabet()[alphabet_index(w)],
            ));
        }
        assert(id@ =~= id0 + id_chars(draws(s0, i as nat)));
    }
}

/// An identifier for `seed`: a generator built from `seed` supplies one draw
/// per character.
pub fn create_id_by_seed(seed: &str, size: Option<usize>, id_type: Option<IdType>) -> (r: String)
    ensures
        r@ == seeded_id(seed@, size_or_default(size), kind_or_default(id_type)),
{
    let size = match size {
        Some(n) => n,
        None => DEFAULT_SIZE,
    };
    let id_type = match id_type {
        Some(t) => t,
        None => IdType::Default,
    };
    let mut rng = Gnrng::new(seed);
    let mut id = id_type.get_prefix().to_owned();
    push_id_chars(&mut id, &mut rng, size);
    id
}

/// Identifiers from one generator built from `seed`: identifier `i` takes the
/// `size` draws that follow the `i * size` draws of the identifiers before it.
pub fn create_deterministic_ids_by_seed(
    seed: &str,
    count: usize,
    size: Option<usize>,
    id_type: Option<IdType>,
) -> (r: Vec<String>)
    ensures
        r.len() == count,
        forall|i: int|
            0 <= i < count ==> #[trigger] r[i]@ == id_from_state(
                advance(seeded_state(encode_utf8(seed@)), (i * size_or_default(size)) as nat),
                size_or_default(size),
                kind_or_default(id_type),
            ),
{
    let size = match size {
        Some(n) => n,
        None => DEFAULT_SIZE,
    };
    let id_type = match id_type {
        Some(t) => t,
        None => IdType::Default,
    };
    let prefix = id_type.get_prefix();
    let mut rng = Gnrng::new(seed);
    let ghost s0 = rng@;
    let mut result: Vec<String> = Vec::new();
    let mut i: usize = 0;
    while i < count
        invariant
            i <= count,
            result.len() == i,
            prefix@ == id_type.prefix(),
            rng@ == advance(s0, (i * size) as nat),
            forall|j: int|
                0 <= j < i ==> #[trigger] result[j]@ == id_from_state(
                    advance(s0, (j * size) as nat),
                    size as nat,
                    id_type,
                ),
        decreases count - i,
    {
        let mut id = prefix.to_owned();
        push_id_chars(&mut id, &mut rng, size);
        proof {
            lemma_advance_add(s0, (i * size) as nat, size as nat);
            assert(i * size + size == (i + 1) * size) by (nonlinear_arith);
        }
        result.push(id);
        i = i + 1;
    }
    result
}

/// Identifiers each from a generator of its own: identifier `i` is the one
/// that `create_id_by_seed` gives for the seed `base_seed-i`.
pub fn create_ids_by_seed(
    base_seed: &str,
    count: usize,
    size: Option<usize>,
    id_type: Option<IdType>,
) -> (r: Vec<String>)
    ensures
        r.len() == count,
        forall|i: int|
            0 <= i < count ==> #[trigger] r[i]@ == seeded_id(
                item_seed(base_seed@, i as nat),
                size_or_default(size),
                kind_or_default(id_type),
            ),
{
    let size = match size {
        Some(n) => n,
        None => DEFAULT_SIZE,
    };
    let id_type = match id_type {
        Some(t) => t,
        None => IdType::Default,
    };
    let prefix = id_type.get_prefix();
    let mut result: Vec<String> = Vec::new();
    let mut i: usize = 0;
    while i < count
        invariant
            i <= count,
            result.len() == i,
            prefix@ == id_type.prefix(),
            forall|j: int|
                0 <= j < i ==> #[trigger] result[j]@ == seeded_id(
                    item_seed(base_seed@, j as nat),
                    size as nat,
                    id_type,
                ),
        decreases count - i,
    {
        let mut seed = base_seed.to_owned();
        push_char(&mut seed, '-');
        push_decimal(&mut seed, i as u128);
        assert(seed@ =~= item_seed(base_seed@, i as nat));
        let mut rng = Gnrng::new(seed.as_str());
        let mut id = prefix.to_owned();
        push_id_chars(&mut id, &mut rng, size);
        result.push(id);
        i = i + 1;
    }
    result
}

/// The alphabet character that position `p` stands for.
pub open spec fn position_char(p: usize) -> char {
    alphabet()[(p % ALPHABET_LEN) as int]
}

/// An identifier of category `id_type` whose characters come from alphabet
/// positions chosen by the caller; position `p` stands for `p mod ALPHABET_LEN`.
pub fn id_from_positions(positions: &Vec<usize>, id_type: IdType) -> (r: String)
    ensures
        r@ == id_type.prefix() + Seq::new(
            positions@.len(),
            |i: int| position_char(positions@[i]),
        ),
{
    proof {
        lemma_alphabet_len();
    }
    let mut id = id_type.get_prefix().to_owned();
    let ghost id0 = id@;
    let mut i: usize = 0;
    while i < positions.len()
        invariant
            i <= positions.len(),
            alphabet().len() == ALPHABET_LEN,
            id@ == id0 + Seq::new(
                i as nat,
                |j: int| position_char(positions@[j]),
            ),
        decreases positions.len() - i,
    {
        let c = AVAILABLE_ALPHABET.get_char(positions[i] % ALPHABET_LEN);
        push_char(&mut id, c);
        i = i + 1;
        assert(id@ =~= id0 + Seq::new(
            i as nat,
            |j: int| position_char(positions@[j]),
        ));
    }
    id
}

/// Advancing `a` steps and then `b` steps is advancing `a + b` steps.
pub proof fn lemma_advance_add(s: GnrngState, a: nat, b: nat)
    ensures
        advance(advance(s, a), b) == advance(s, a + b),
    decreases b,
{
    if b > 0 {
        lemma_advance_add(s, a, (b - 1) as nat);
    }
}

/// Every identifier drawn from a generator has its category's prefix followed
/// by exactly `size` characters, each of them from the alphabet.
pub proof fn lemma_id_shape(s: GnrngState, size: nat, t: IdType)
    ensures
        id_from_state(s, size, t).len() == t.prefix().len() + size,
        id_from_state(s, size, t).subrange(0, t.prefix().len() as int) == t.prefix(),
        forall|i: int|
            t.prefix().len() <= i < id_from_state(s, size, t).len() ==> alphabet().contains(
                #[trigger] id_from_state(s, size, t)[i],
            ),
{
    lemma_draws_len(s, size);
    lemma_alphabet_len();
    let id = id_from_state(s, size, t);
    let p = t.prefix().len() as int;
    assert(id.subrange(0, p) =~= t.prefix());
    assert forall|i: int| p <= i < id.len() implies alphabet().contains(#[trigger] id[i]) by {
        let w = draws(s, size)[i - p];
        assert(0 <= alphabet_index(w) < 58) by {
            assert((w as int * 58) / 0x1_0000_0000 < 58) by (nonlinear_arith)
                requires
                    0 <= w < 0x1_0000_0000,
            ;
        }
        assert(id[i] == alphabet()[alphabet_index(w)]);
    }
}

} // verus!
