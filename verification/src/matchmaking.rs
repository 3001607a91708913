//! Matchmaking: collision-free lobby-code generation, random lobby
//! selection for `JOIN RANDOM`, and the random draw of a race's word
//! list.  Randomness comes from the process-wide generator behind
//! trusted wrappers; everything done with the drawn values is verified.
use vstd::prelude::*;

use rand::Rng;

use crate::types::{valid_code, Lobby, LobbyCode};

verus! {

/// Relies on `rand::Rng::fill` over the thread-local generator: fills the
/// buffer with bytes.  The values are random, so nothing is promised of
/// them beyond the count.
#[verifier::external_body]
fn random_bytes5() -> (r: [u8; 5])
    ensures
        r@.len() == 5,
{
    let mut b = [0u8; 5];
    rand::thread_rng().fill(&mut b[..]);
    b
}

/// Relies on `rand::Rng::gen_range` over `0..n`: returns a value of the
/// range, and panics only on an empty range, which the caller excludes.
#[verifier::external_body]
fn random_below(n: usize) -> (r: usize)
    requires
        n > 0,
    ensures
        r < n,
{
    rand::thread_rng().gen_range(0..n)
}

/// Relies on `rand::seq::index::sample`: exactly `amount` distinct
/// indices below `length`, in random order; panics only when
/// `amount > length`, which the caller excludes.
#[verifier::external_body]
fn sample_indices(length: usize, amount: usize) -> (r: Vec<usize>)
    requires
        amount <= length,
    ensures
        r@.len() == amount as nat,
        forall|i: int| 0 <= i < r@.len() ==> #[trigger] r@[i] < length,
        forall|i: int, j: int| 0 <= i < j < r@.len() ==> r@[i] != r@[j],
{
    rand::seq::index::sample(&mut rand::thread_rng(), length, amount).into_vec()
}

/// Fold five raw bytes into the uppercase-letter alphabet: each byte
/// becomes 65 plus its remainder by 26.
fn code_from_bytes(b: &[u8; 5]) -> (r: LobbyCode)
    ensures
        valid_code(r@),
        forall|i: int| 0 <= i < 5 ==> r@[i] == 65 + (#[trigger] b@[i]) % 26,
{
    let r = LobbyCode(
        65 + b[0] % 26,
        65 + b[1] % 26,
        65 + b[2] % 26,
        65 + b[3] % 26,
        65 + b[4] % 26,
    );
    proof {
        assert(valid_code(r@)) by {
            assert(r@[0] == r.0 && r@[1] == r.1 && r@[2] == r.2 && r@[3] == r.3 && r@[4] == r.4);
        }
    }
    r
}

/// No live lobby already owns this code.
pub fn code_is_free(lobbies: &Vec<Lobby>, code: LobbyCode) -> (r: bool)
    ensures
        r <==> forall|i: int| 0 <= i < lobbies@.len() ==> #[trigger] lobbies@[i].code != code,
{
    let mut i: usize = 0;
    while i < lobbies.len()
        invariant
            0 <= i <= lobbies@.len(),
            forall|j: int| 0 <= j < i ==> #[trigger] lobbies@[j].code != code,
        decreases lobbies@.len() - i,
    {
        if lobbies[i].code == code {
            return false;
        }
        i = i + 1;
    }
    true
}

/// How many fresh draws code generation makes before giving up; far more
/// than the astronomically small collision chance ever needs.
pub const CODE_ATTEMPTS: u32 = 64;

/// Draw candidate codes until one is not already in use.  Success hinges
/// on the random draws, so it is not owed in general — but against an
/// empty registry no draw can collide, so a code is then guaranteed.
/// Every returned code is well formed and free.
pub fn generate_lobby_code(lobbies: &Vec<Lobby>) -> (r: Option<LobbyCode>)
    ensures
        match r {
            Some(code) => valid_code(code@) && forall|i: int|
                0 <= i < lobbies@.len() ==> #[trigger] lobbies@[i].code != code,
            None => lobbies@.len() > 0,
        },
{
    let mut attempt: u32 = 0;
    while attempt < CODE_ATTEMPTS
        invariant
            lobbies@.len() == 0 ==> attempt == 0,
        decreases CODE_ATTEMPTS - attempt,
    {
        let bytes = random_bytes5();
        let code = code_from_bytes(&bytes);
        if code_is_free(lobbies, code) {
            return Some(code);
        }
        attempt = attempt + 1;
    }
    None
}

/// Resolve `JOIN RANDOM`: a uniformly chosen live lobby's code, or
/// nothing when no lobby exists.
pub fn pick_random_lobby(lobbies: &Vec<Lobby>) -> (r: Option<LobbyCode>)
    ensures
        match r {
            Some(code) => exists|i: int|
                0 <= i < lobbies@.len() && #[trigger] lobbies@[i].code == code,
            None => lobbies@.len() == 0,
        },
{
    if lobbies.len() == 0 {
        return None;
    }
    let i = random_below(lobbies.len());
    Some(lobbies[i].code)
}

/// A verified copy of a byte string.
pub fn copy_bytes(w: &Vec<u8>) -> (r: Vec<u8>)
    ensures
        r@ == w@,
{
    let mut r: Vec<u8> = Vec::new();
    let mut k: usize = 0;
    while k < w.len()
        invariant
            0 <= k <= w@.len(),
            r@ == w@.subrange(0, k as int),
        decreases w@.len() - k,
    {
        r.push(w[k]);
        proof {
            assert(w@.subrange(0, k as int + 1) =~= w@.subrange(0, k as int).push(w@[k as int]));
        }
        k = k + 1;
    }
    proof {
        assert(w@.subrange(0, w@.len() as int) =~= w@);
    }
    r
}

/// The byte string `w` occurs somewhere in the dictionary.
pub open spec fn word_from_dict(w: Seq<u8>, dict: Seq<Vec<u8>>) -> bool {
    exists|j: int| 0 <= j < dict.len() && w == #[trigger] dict[j]@
}

/// The words of `r` stand at pairwise-distinct positions of the
/// dictionary: a draw without replacement.
pub open spec fn drawn_without_replacement(r: Seq<Vec<u8>>, dict: Seq<Vec<u8>>) -> bool {
    exists|pos: Seq<int>|
        #![trigger pos.len()]
        pos.len() == r.len() && (forall|a: int, b: int|
            0 <= a < b < pos.len() ==> pos[a] != pos[b]) && (forall|k: int|
            0 <= k < pos.len() ==> 0 <= #[trigger] pos[k] < dict.len() && r[k]@ == dict[pos[k]]@)
}

/// Draw the race's word list: exactly `crate::WORD_COUNT` words taken at
/// distinct positions of the dictionary.
pub fn choose_words(dict: &Vec<Vec<u8>>) -> (r: Vec<Vec<u8>>)
    requires
        dict@.len() >= crate::WORD_COUNT,
    ensures
        r@.len() == crate::WORD_COUNT,
        forall|i: int| 0 <= i < r@.len() ==> word_from_dict(#[trigger] r@[i]@, dict@),
        drawn_without_replacement(r@, dict@),
{
    let idx = sample_indices(dict.len(), crate::WORD_COUNT);
    let mut r: Vec<Vec<u8>> = Vec::new();
    let mut k: usize = 0;
    while k < idx.len()
        invariant
            0 <= k <= idx@.len(),
            r@.len() == k,
            idx@.len() == crate::WORD_COUNT,
            forall|i: int| 0 <= i < idx@.len() ==> #[trigger] idx@[i] < dict@.len(),
            forall|i: int, j: int| 0 <= i < j < idx@.len() ==> idx@[i] != idx@[j],
            forall|i: int| 0 <= i < k ==> #[trigger] r@[i]@ == dict@[idx@[i] as int]@,
        decreases idx@.len() - k,
    {
        let w = copy_bytes(&dict[idx[k]]);
        r.push(w);
        proof {
            assert(r@[k as int]@ == dict@[idx@[k as int] as int]@);
        }
        k = k + 1;
    }
    proof {
        assert forall|i: int| 0 <= i < r@.len() implies word_from_dict(
            #[trigger] r@[i]@,
            dict@,
        ) by {
            assert(r@[i]@ == dict@[idx@[i] as int]@);
        }
        assert(drawn_without_replacement(r@, dict@)) by {
            let pos = Seq::new(idx@.len() as nat, |k: int| idx@[k] as int);
            assert(pos.len() == r@.len());
            assert forall|a: int, b: int| 0 <= a < b < pos.len() implies pos[a] != pos[b] by {
                assert(idx@[a] != idx@[b]);
            }
            assert forall|k: int| 0 <= k < pos.len() implies 0 <= #[trigger] pos[k] < dict@.len()
                && r@[k]@ == dict@[pos[k]]@ by {
                assert(pos[k] == idx@[k] as int);
            }
        }
    }
    r
}

} // verus!
