//! The protocol codec: newline-delimited ASCII lines in, typed commands
//! out, and the rendering of every outbound server message.  The grammar
//! is stated once, as spec functions over byte sequences; the executable
//! parser and printers are proved equal to it.
use vstd::prelude::*;

use crate::PlayerState;
use crate::types::{Command, LobbyCode, ParseError};

verus! {

// ---------------------------------------------------------------- classes

/// ASCII whitespace, as the wire grammar sees it.
pub open spec fn is_ws(b: u8) -> bool {
    b == 32 || b == 9 || b == 10 || b == 12 || b == 13
}

/// An ASCII decimal digit.
pub open spec fn is_digit(b: u8) -> bool {
    48 <= b <= 57
}

/// Every byte of the sequence is a decimal digit.
pub open spec fn all_digits(s: Seq<u8>) -> bool {
    forall|i: int| 0 <= i < s.len() ==> is_digit(#[trigger] s[i])
}

// --------------------------------------------------------------- scanning

/// The first index at or after `i` holding a non-whitespace byte, or the
/// end of the sequence.
pub open spec fn skip_ws(s: Seq<u8>, i: int) -> int
    decreases s.len() - i,
{
    if i < 0 || i >= s.len() {
        i
    } else if is_ws(s[i]) {
        skip_ws(s, i + 1)
    } else {
        i
    }
}

/// The first index at or after `i` holding a whitespace byte, or the end
/// of the sequence: the exclusive end of the token starting at `i`.
pub open spec fn token_end(s: Seq<u8>, i: int) -> int
    decreases s.len() - i,
{
    if i < 0 || i >= s.len() {
        i
    } else if is_ws(s[i]) {
        i
    } else {
        token_end(s, i + 1)
    }
}

/// A run of non-whitespace bytes ending at the sequence end or at a
/// whitespace byte is exactly one token.
pub proof fn lemma_token_run(s: Seq<u8>, i: int, j: int)
    requires
        0 <= i <= j <= s.len(),
        forall|k: int| i <= k < j ==> !is_ws(#[trigger] s[k]),
        j == s.len() || is_ws(s[j]),
    ensures
        token_end(s, i) == j,
    decreases j - i,
{
    if i < j {
        lemma_token_run(s, i + 1, j);
    }
}

/// Skipping whitespace steps over one whitespace byte at a time.
pub proof fn lemma_skip_one_ws(s: Seq<u8>, i: int)
    requires
        0 <= i < s.len(),
        is_ws(s[i]),
    ensures
        skip_ws(s, i) == skip_ws(s, i + 1),
{
}

// ---------------------------------------------------------------- numbers

/// The value of a digit string, most significant digit first.
pub open spec fn dec_value(s: Seq<u8>) -> int
    decreases s.len(),
{
    if s.len() == 0 {
        0
    } else {
        dec_value(s.drop_last()) * 10 + (s.last() - 48)
    }
}

/// The canonical digit string of a non-negative value: no sign, no
/// leading zeros (except for the value zero itself).
pub open spec fn digits_of(n: int) -> Seq<u8>
    decreases n,
{
    if n < 10 {
        seq![(48 + n) as u8]
    } else {
        digits_of(n / 10).push((48 + n % 10) as u8)
    }
}

pub proof fn lemma_dec_nonneg(s: Seq<u8>)
    requires
        all_digits(s),
    ensures
        dec_value(s) >= 0,
    decreases s.len(),
{
    if s.len() > 0 {
        assert forall|i: int| 0 <= i < s.drop_last().len() implies is_digit(
            #[trigger] s.drop_last()[i],
        ) by {
            assert(s.drop_last()[i] == s[i]);
        }
        lemma_dec_nonneg(s.drop_last());
    }
}

/// A prefix of a digit string never exceeds the whole string's value.
pub proof fn lemma_dec_prefix_le(s: Seq<u8>, k: int)
    requires
        all_digits(s),
        0 <= k <= s.len(),
    ensures
        dec_value(s.subrange(0, k)) <= dec_value(s),
    decreases s.len() - k,
{
    if k == s.len() {
        assert(s.subrange(0, k) =~= s);
    } else {
        assert(s.subrange(0, k + 1).drop_last() =~= s.subrange(0, k));
        assert(s.subrange(0, k + 1).last() == s[k]);
        assert forall|i: int| 0 <= i < s.subrange(0, k).len() implies is_digit(
            #[trigger] s.subrange(0, k)[i],
        ) by {
            assert(s.subrange(0, k)[i] == s[i]);
        }
        lemma_dec_nonneg(s.subrange(0, k));
        lemma_dec_prefix_le(s, k + 1);
    }
}

/// The canonical digit string is made of digits and reads back to its
/// value.
pub proof fn lemma_digits_of(n: int)
    requires
        n >= 0,
    ensures
        all_digits(digits_of(n)),
        digits_of(n).len() >= 1,
        dec_value(digits_of(n)) == n,
    decreases n,
{
    if n < 10 {
        assert(digits_of(n).drop_last() =~= Seq::<u8>::empty());
        assert(dec_value(Seq::<u8>::empty()) == 0);
        assert(digits_of(n).last() == (48 + n) as u8);
    } else {
        lemma_digits_of(n / 10);
        assert(digits_of(n).drop_last() =~= digits_of(n / 10));
        assert(digits_of(n).last() == (48 + n % 10) as u8);
        assert(dec_value(digits_of(n)) == n / 10 * 10 + n % 10);
        assert forall|i: int| 0 <= i < digits_of(n).len() implies is_digit(
            #[trigger] digits_of(n)[i],
        ) by {
            if i < digits_of(n / 10).len() {
                assert(digits_of(n)[i] == digits_of(n / 10)[i]);
            }
        }
    }
}

/// What a whitespace-free token between `lo` and `hi` parses to as an
/// unsigned number, if it is all digits and fits in 64 bits.
pub open spec fn token_num(s: Seq<u8>, lo: int, hi: int) -> Option<int> {
    let t = s.subrange(lo, hi);
    if all_digits(t) && dec_value(t) <= u64::MAX {
        Some(dec_value(t))
    } else {
        None
    }
}

/// Parse the token `buf[lo..hi]` as a decimal number.
pub fn parse_num(buf: &[u8], lo: usize, hi: usize) -> (r: Option<u64>)
    requires
        lo <= hi <= buf@.len(),
    ensures
        match r {
            Some(v) => token_num(buf@, lo as int, hi as int) == Some(v as int),
            None => token_num(buf@, lo as int, hi as int) is None,
        },
{
    let ghost t = buf@.subrange(lo as int, hi as int);
    let mut acc: u64 = 0;
    let mut k: usize = lo;
    while k < hi
        invariant
            lo <= k <= hi <= buf@.len(),
            t == buf@.subrange(lo as int, hi as int),
            all_digits(buf@.subrange(lo as int, k as int)),
            acc == dec_value(buf@.subrange(lo as int, k as int)),
        decreases hi - k,
    {
        let b = buf[k];
        proof {
            assert(t[k - lo] == buf@[k as int]);
        }
        if !(48 <= b && b <= 57) {
            return None;
        }
        let d = (b - 48) as u64;
        let next = match acc.checked_mul(10) {
            Some(x) => x.checked_add(d),
            None => None,
        };
        proof {
            assert(buf@.subrange(lo as int, k as int + 1).drop_last() =~= buf@.subrange(
                lo as int,
                k as int,
            ));
            assert(buf@.subrange(lo as int, k as int + 1).last() == buf@[k as int]);
        }
        proof {
            assert(dec_value(buf@.subrange(lo as int, k as int + 1)) == acc * 10 + (b - 48));
        }
        match next {
            Some(x) => {
                acc = x;
            },
            None => {
                proof {
                    assert(acc * 10 + d > u64::MAX);
                    if all_digits(t) && dec_value(t) <= u64::MAX {
                        assert(t.subrange(0, k as int + 1 - lo) =~= buf@.subrange(
                            lo as int,
                            k as int + 1,
                        ));
                        lemma_dec_prefix_le(t, k as int + 1 - lo);
                        assert(false);
                    }
                }
                return None;
            },
        }
        k = k + 1;
    }
    proof {
        assert(buf@.subrange(lo as int, k as int) =~= t);
    }
    Some(acc)
}

/// Append the canonical decimal digits of `n`.
pub fn push_u64(v: &mut Vec<u8>, n: u64)
    ensures
        final(v)@ == old(v)@ + digits_of(n as int),
    decreases n,
{
    if n < 10 {
        v.push((48 + n) as u8);
        proof {
            assert(v@ =~= old(v)@ + digits_of(n as int));
        }
    } else {
        push_u64(v, n / 10);
        v.push((48 + n % 10) as u8);
        proof {
            assert(v@ =~= old(v)@ + digits_of(n as int));
        }
    }
}

// --------------------------------------------------------------- literals

pub open spec fn lit_start() -> Seq<u8> {
    seq![83u8, 84u8, 65u8, 82u8, 84u8]
}

pub open spec fn lit_create() -> Seq<u8> {
    seq![67u8, 82u8, 69u8, 65u8, 84u8, 69u8]
}

pub open spec fn lit_restart() -> Seq<u8> {
    seq![82u8, 69u8, 83u8, 84u8, 65u8, 82u8, 84u8]
}

pub open spec fn lit_join_random() -> Seq<u8> {
    seq![74u8, 79u8, 73u8, 78u8, 32u8, 82u8, 65u8, 78u8, 68u8, 79u8, 77u8]
}

pub open spec fn lit_state_prefix() -> Seq<u8> {
    seq![83u8, 84u8, 65u8, 84u8, 69u8, 32u8]
}

pub open spec fn lit_join_prefix() -> Seq<u8> {
    seq![74u8, 79u8, 73u8, 78u8, 32u8]
}

fn lit_start_vec() -> (r: Vec<u8>)
    ensures
        r@ == lit_start(),
{
    let v: Vec<u8> = vec![83u8, 84u8, 65u8, 82u8, 84u8];
    proof {
        assert(v@ =~= lit_start());
    }
    v
}

fn lit_create_vec() -> (r: Vec<u8>)
    ensures
        r@ == lit_create(),
{
    let v: Vec<u8> = vec![67u8, 82u8, 69u8, 65u8, 84u8, 69u8];
    proof {
        assert(v@ =~= lit_create());
    }
    v
}

fn lit_restart_vec() -> (r: Vec<u8>)
    ensures
        r@ == lit_restart(),
{
    let v: Vec<u8> = vec![82u8, 69u8, 83u8, 84u8, 65u8, 82u8, 84u8];
    proof {
        assert(v@ =~= lit_restart());
    }
    v
}

fn lit_join_random_vec() -> (r: Vec<u8>)
    ensures
        r@ == lit_join_random(),
{
    let v: Vec<u8> = vec![74u8, 79u8, 73u8, 78u8, 32u8, 82u8, 65u8, 78u8, 68u8, 79u8, 77u8];
    proof {
        assert(v@ =~= lit_join_random());
    }
    v
}

fn lit_state_prefix_vec() -> (r: Vec<u8>)
    ensures
        r@ == lit_state_prefix(),
{
    let v: Vec<u8> = vec![83u8, 84u8, 65u8, 84u8, 69u8, 32u8];
    proof {
        assert(v@ =~= lit_state_prefix());
    }
    v
}

fn lit_join_prefix_vec() -> (r: Vec<u8>)
    ensures
        r@ == lit_join_prefix(),
{
    let v: Vec<u8> = vec![74u8, 79u8, 73u8, 78u8, 32u8];
    proof {
        assert(v@ =~= lit_join_prefix());
    }
    v
}

// --------------------------------------------------------------- matching

/// `p` is a prefix of `s`.
pub open spec fn has_prefix(s: Seq<u8>, p: Seq<u8>) -> bool {
    p.len() <= s.len() && s.subrange(0, p.len() as int) == p
}

/// Compare `buf[lo..lo+pat.len()]` with `pat`.
fn region_matches(buf: &[u8], lo: usize, pat: &Vec<u8>) -> (r: bool)
    requires
        lo <= buf@.len(),
    ensures
        r <==> lo + pat@.len() <= buf@.len() && buf@.subrange(
            lo as int,
            lo as int + pat@.len() as int,
        ) == pat@,
{
    let m = pat.len();
    let n = buf.len();
    if n - lo < m {
        return false;
    }
    let mut k: usize = 0;
    while k < m
        invariant
            0 <= k <= m == pat@.len(),
            lo + m <= n == buf@.len(),
            forall|j: int| 0 <= j < k ==> buf@[lo + j] == pat@[j],
        decreases m - k,
    {
        if buf[lo + k] != pat[k] {
            proof {
                let sub = buf@.subrange(lo as int, lo as int + pat@.len() as int);
                assert(sub[k as int] != pat@[k as int]);
            }
            return false;
        }
        k = k + 1;
    }
    proof {
        assert(buf@.subrange(lo as int, lo as int + pat@.len() as int) =~= pat@);
    }
    true
}

/// Is `buf` exactly `pat`?
fn matches_full(buf: &[u8], pat: &Vec<u8>) -> (r: bool)
    ensures
        r <==> buf@ == pat@,
{
    proof {
        assert(buf@.subrange(0, buf@.len() as int) =~= buf@);
    }
    if buf.len() != pat.len() {
        return false;
    }
    region_matches(buf, 0, pat)
}

/// Does `buf` start with `pat`?
fn matches_prefix(buf: &[u8], pat: &Vec<u8>) -> (r: bool)
    ensures
        r <==> has_prefix(buf@, pat@),
{
    region_matches(buf, 0, pat)
}

// ---------------------------------------------------------------- parsing

/// The three whitespace-separated `STATE` fields, read from absolute
/// position `from`; extra trailing tokens are ignored, as they always
/// were.  The first two fields are 64-bit; the third must fit a byte and
/// means "made a mistake" exactly when it reads 1.
pub open spec fn spec_parse_state(s: Seq<u8>, from: int) -> Result<Command, ParseError> {
    let i0 = skip_ws(s, from);
    if i0 >= s.len() {
        Err(ParseError::UnexpectedEnd)
    } else {
        let e0 = token_end(s, i0);
        match token_num(s, i0, e0) {
            None => Err(ParseError::BadNumber),
            Some(w) => {
                let i1 = skip_ws(s, e0);
                if i1 >= s.len() {
                    Err(ParseError::UnexpectedEnd)
                } else {
                    let e1 = token_end(s, i1);
                    match token_num(s, i1, e1) {
                        None => Err(ParseError::BadNumber),
                        Some(c) => {
                            let i2 = skip_ws(s, e1);
                            if i2 >= s.len() {
                                Err(ParseError::UnexpectedEnd)
                            } else {
                                let e2 = token_end(s, i2);
                                match token_num(s, i2, e2) {
                                    None => Err(ParseError::BadNumber),
                                    Some(m) => if m > 255 {
                                        Err(ParseError::BadNumber)
                                    } else {
                                        Ok(Command::State(PlayerState {
                                            current_word: w as u64,
                                            current_completed_character: c as u64,
                                            did_make_mistake: m == 1,
                                        }))
                                    },
                                }
                            }
                        },
                    }
                }
            },
        }
    }
}

/// The whole command grammar, one case per wire command, tried in order.
pub open spec fn spec_parse_command(s: Seq<u8>) -> Result<Command, ParseError> {
    if s == lit_start() {
        Ok(Command::Start)
    } else if s == lit_create() {
        Ok(Command::Create)
    } else if has_prefix(s, lit_state_prefix()) {
        spec_parse_state(s, lit_state_prefix().len() as int)
    } else if s == lit_join_random() {
        Ok(Command::JoinRandom)
    } else if has_prefix(s, lit_join_prefix()) {
        if s.len() == lit_join_prefix().len() + 5 {
            Ok(Command::Join(LobbyCode(s[5], s[6], s[7], s[8], s[9])))
        } else {
            Err(ParseError::BadCodeLength)
        }
    } else if s == lit_restart() {
        Ok(Command::Restart)
    } else {
        Err(ParseError::UnknownCommand)
    }
}

fn parse_state_fields(buf: &[u8], from: usize) -> (r: Result<Command, ParseError>)
    requires
        from <= buf@.len(),
    ensures
        r == spec_parse_state(buf@, from as int),
{
    let n = buf.len();
    let i0 = skip_ws_exec(buf, from);
    if i0 >= n {
        return Err(ParseError::UnexpectedEnd);
    }
    let e0 = token_end_exec(buf, i0);
    let w = match parse_num(buf, i0, e0) {
        None => {
            return Err(ParseError::BadNumber);
        },
        Some(v) => v,
    };
    let i1 = skip_ws_exec(buf, e0);
    if i1 >= n {
        return Err(ParseError::UnexpectedEnd);
    }
    let e1 = token_end_exec(buf, i1);
    let c = match parse_num(buf, i1, e1) {
        None => {
            return Err(ParseError::BadNumber);
        },
        Some(v) => v,
    };
    let i2 = skip_ws_exec(buf, e1);
    if i2 >= n {
        return Err(ParseError::UnexpectedEnd);
    }
    let e2 = token_end_exec(buf, i2);
    let m = match parse_num(buf, i2, e2) {
        None => {
            return Err(ParseError::BadNumber);
        },
        Some(v) => v,
    };
    if m > 255 {
        return Err(ParseError::BadNumber);
    }
    Ok(Command::State(PlayerState {
        current_word: w,
        current_completed_character: c,
        did_make_mistake: m == 1,
    }))
}

fn skip_ws_exec(buf: &[u8], i: usize) -> (r: usize)
    requires
        i <= buf@.len(),
    ensures
        r == skip_ws(buf@, i as int),
        i <= r <= buf@.len(),
    decreases buf@.len() - i,
{
    if i < buf.len() && is_ws_byte(buf[i]) {
        skip_ws_exec(buf, i + 1)
    } else {
        i
    }
}

fn token_end_exec(buf: &[u8], i: usize) -> (r: usize)
    requires
        i <= buf@.len(),
    ensures
        r == token_end(buf@, i as int),
        i <= r <= buf@.len(),
    decreases buf@.len() - i,
{
    if i < buf.len() && !is_ws_byte(buf[i]) {
        token_end_exec(buf, i + 1)
    } else {
        i
    }
}

fn is_ws_byte(b: u8) -> (r: bool)
    ensures
        r == is_ws(b),
{
    b == 32 || b == 9 || b == 10 || b == 12 || b == 13
}

/// Decode one complete line (without its terminator) into a command.
/// A failure discards the line only; the connection stays up.
pub fn parse_command(buffer: &[u8]) -> (r: Result<Command, ParseError>)
    ensures
        r == spec_parse_command(buffer@),
{
    if matches_full(buffer, &lit_start_vec()) {
        return Ok(Command::Start);
    }
    if matches_full(buffer, &lit_create_vec()) {
        return Ok(Command::Create);
    }
    if matches_prefix(buffer, &lit_state_prefix_vec()) {
        return parse_state_fields(buffer, 6);
    }
    if matches_full(buffer, &lit_join_random_vec()) {
        return Ok(Command::JoinRandom);
    }
    if matches_prefix(buffer, &lit_join_prefix_vec()) {
        if buffer.len() == 10 {
            return Ok(Command::Join(LobbyCode(buffer[5], buffer[6], buffer[7], buffer[8], buffer[9])));
        }
        return Err(ParseError::BadCodeLength);
    }
    if matches_full(buffer, &lit_restart_vec()) {
        return Ok(Command::Restart);
    }
    Err(ParseError::UnknownCommand)
}


// -------------------------------------------------------------- rendering

pub open spec fn lit_connected() -> Seq<u8> {
    // "CONNECTED "
    seq![67u8, 79u8, 78u8, 78u8, 69u8, 67u8, 84u8, 69u8, 68u8, 32u8]
}

pub open spec fn lit_created() -> Seq<u8> {
    // "CREATED "
    seq![67u8, 82u8, 69u8, 65u8, 84u8, 69u8, 68u8, 32u8]
}

pub open spec fn lit_joined() -> Seq<u8> {
    // "JOINED "
    seq![74u8, 79u8, 73u8, 78u8, 69u8, 68u8, 32u8]
}

pub open spec fn lit_join_failed() -> Seq<u8> {
    // "JOIN_FAILED"
    seq![74u8, 79u8, 73u8, 78u8, 95u8, 70u8, 65u8, 73u8, 76u8, 69u8, 68u8]
}

pub open spec fn lit_words() -> Seq<u8> {
    // "WORDS "
    seq![87u8, 79u8, 82u8, 68u8, 83u8, 32u8]
}

pub open spec fn lit_countdown() -> Seq<u8> {
    // "COUNTDOWN "
    seq![67u8, 79u8, 85u8, 78u8, 84u8, 68u8, 79u8, 87u8, 78u8, 32u8]
}

pub open spec fn lit_starting() -> Seq<u8> {
    // "STARTING"
    seq![83u8, 84u8, 65u8, 82u8, 84u8, 73u8, 78u8, 71u8]
}

pub open spec fn lit_finished() -> Seq<u8> {
    // "FINISHED "
    seq![70u8, 73u8, 78u8, 73u8, 83u8, 72u8, 69u8, 68u8, 32u8]
}

/// The words of a race, separated by single spaces.
pub open spec fn words_payload(ws: Seq<Seq<u8>>) -> Seq<u8>
    decreases ws.len(),
{
    if ws.len() == 0 {
        Seq::empty()
    } else if ws.len() == 1 {
        ws[0]
    } else {
        words_payload(ws.drop_last()) + seq![32u8] + ws.last()
    }
}

pub open spec fn connected_line(id: u64) -> Seq<u8> {
    lit_connected() + digits_of(id as int) + seq![10u8]
}

pub open spec fn created_line(code: LobbyCode) -> Seq<u8> {
    lit_created() + code@ + seq![10u8]
}

pub open spec fn joined_line(code: LobbyCode) -> Seq<u8> {
    lit_joined() + code@ + seq![10u8]
}

pub open spec fn join_failed_line() -> Seq<u8> {
    lit_join_failed() + seq![10u8]
}

pub open spec fn words_line(ws: Seq<Seq<u8>>) -> Seq<u8> {
    lit_words() + words_payload(ws) + seq![10u8]
}

pub open spec fn countdown_line(secs: u64) -> Seq<u8> {
    lit_countdown() + digits_of(secs as int) + seq![10u8]
}

pub open spec fn starting_line() -> Seq<u8> {
    lit_starting() + seq![10u8]
}

pub open spec fn state_line(id: u64, ps: PlayerState) -> Seq<u8> {
    lit_state_prefix() + digits_of(id as int) + seq![32u8] + digits_of(
        ps.current_word as int,
    ) + seq![32u8] + digits_of(ps.current_completed_character as int) + seq![32u8] + (
    if ps.did_make_mistake {
        seq![49u8]
    } else {
        seq![48u8]
    }) + seq![10u8]
}

pub open spec fn finished_line(id: u64) -> Seq<u8> {
    lit_finished() + digits_of(id as int) + seq![10u8]
}

/// Append a copy of `w`.
fn append_bytes(v: &mut Vec<u8>, w: &Vec<u8>)
    ensures
        final(v)@ == old(v)@ + w@,
{
    let mut k: usize = 0;
    while k < w.len()
        invariant
            0 <= k <= w@.len(),
            v@ == old(v)@ + w@.subrange(0, k as int),
        decreases w@.len() - k,
    {
        v.push(w[k]);
        proof {
            assert(old(v)@ + w@.subrange(0, k as int + 1) =~= (old(v)@ + w@.subrange(
                0,
                k as int,
            )).push(w@[k as int]));
        }
        k = k + 1;
    }
    proof {
        assert(w@.subrange(0, w@.len() as int) =~= w@);
    }
}

fn lit_vec(l: Ghost<Seq<u8>>, bytes: &[u8]) -> (r: Vec<u8>)
    requires
        bytes@ == l@,
    ensures
        r@ == l@,
{
    let mut v: Vec<u8> = Vec::new();
    let mut k: usize = 0;
    while k < bytes.len()
        invariant
            0 <= k <= bytes@.len(),
            v@ == bytes@.subrange(0, k as int),
        decreases bytes@.len() - k,
    {
        v.push(bytes[k]);
        proof {
            assert(bytes@.subrange(0, k as int + 1) =~= bytes@.subrange(0, k as int).push(
                bytes@[k as int],
            ));
        }
        k = k + 1;
    }
    proof {
        assert(bytes@.subrange(0, bytes@.len() as int) =~= bytes@);
    }
    v
}

fn push_code(v: &mut Vec<u8>, code: LobbyCode)
    ensures
        final(v)@ == old(v)@ + code@,
{
    v.push(code.0);
    v.push(code.1);
    v.push(code.2);
    v.push(code.3);
    v.push(code.4);
    proof {
        assert(v@ =~= old(v)@ + code@);
    }
}

/// Render `CONNECTED <id>`.
pub fn render_connected(id: u64) -> (r: Vec<u8>)
    ensures
        r@ == connected_line(id),
{
    let a: [u8; 10] = [67u8, 79u8, 78u8, 78u8, 69u8, 67u8, 84u8, 69u8, 68u8, 32u8];
    proof {
        assert(a@ =~= lit_connected());
    }
    let mut v = lit_vec(Ghost(lit_connected()), a.as_slice());
    push_u64(&mut v, id);
    v.push(10);
    proof {
        assert(v@ =~= connected_line(id));
    }
    v
}

/// Render `CREATED <code>`.
pub fn render_created(code: LobbyCode) -> (r: Vec<u8>)
    ensures
        r@ == created_line(code),
{
    let a: [u8; 8] = [67u8, 82u8, 69u8, 65u8, 84u8, 69u8, 68u8, 32u8];
    proof {
        assert(a@ =~= lit_created());
    }
    let mut v = lit_vec(Ghost(lit_created()), a.as_slice());
    push_code(&mut v, code);
    v.push(10);
    proof {
        assert(v@ =~= created_line(code));
    }
    v
}

/// Render `JOINED <code>`.
pub fn render_joined(code: LobbyCode) -> (r: Vec<u8>)
    ensures
        r@ == joined_line(code),
{
    let a: [u8; 7] = [74u8, 79u8, 73u8, 78u8, 69u8, 68u8, 32u8];
    proof {
        assert(a@ =~= lit_joined());
    }
    let mut v = lit_vec(Ghost(lit_joined()), a.as_slice());
    push_code(&mut v, code);
    v.push(10);
    proof {
        assert(v@ =~= joined_line(code));
    }
    v
}

/// Render `JOIN_FAILED`.
pub fn render_join_failed() -> (r: Vec<u8>)
    ensures
        r@ == join_failed_line(),
{
    let a: [u8; 11] = [74u8, 79u8, 73u8, 78u8, 95u8, 70u8, 65u8, 73u8, 76u8, 69u8, 68u8];
    proof {
        assert(a@ =~= lit_join_failed());
    }
    let mut v = lit_vec(Ghost(lit_join_failed()), a.as_slice());
    v.push(10);
    proof {
        assert(v@ =~= join_failed_line());
    }
    v
}

/// Render `WORDS <w1> ... <wn>`.
pub fn render_words(words: &Vec<Vec<u8>>) -> (r: Vec<u8>)
    ensures
        r@ == words_line(words.deep_view()),
{
    let ghost ws = words.deep_view();
    let a: [u8; 6] = [87u8, 79u8, 82u8, 68u8, 83u8, 32u8];
    proof {
        assert(a@ =~= lit_words());
    }
    let mut v = lit_vec(Ghost(lit_words()), a.as_slice());
    proof {
        assert(lit_words() + words_payload(ws.subrange(0, 0)) =~= lit_words());
    }
    let mut i: usize = 0;
    while i < words.len()
        invariant
            0 <= i <= words@.len(),
            ws == words.deep_view(),
            ws.len() == words@.len(),
            v@ == lit_words() + words_payload(ws.subrange(0, i as int)),
        decreases words@.len() - i,
    {
        proof {
            assert(ws[i as int] == words@[i as int].deep_view());
        }
        if i > 0 {
            v.push(32);
        }
        append_bytes(&mut v, &words[i]);
        proof {
            let pre = ws.subrange(0, i as int);
            let post = ws.subrange(0, i as int + 1);
            assert(post.drop_last() =~= pre);
            assert(post.last() == ws[i as int]);
            if i == 0 {
                assert(post =~= seq![ws[0]]);
                assert(words_payload(post) == ws[0]);
                assert(v@ =~= lit_words() + words_payload(post));
            } else {
                assert(words_payload(post) == words_payload(pre) + seq![32u8] + ws[i as int]);
                assert(v@ =~= lit_words() + words_payload(post));
            }
        }
        i = i + 1;
    }
    v.push(10);
    proof {
        assert(ws.subrange(0, ws.len() as int) =~= ws);
        assert(v@ =~= words_line(ws));
    }
    v
}

/// Render `COUNTDOWN <seconds>`.
pub fn render_countdown(secs: u64) -> (r: Vec<u8>)
    ensures
        r@ == countdown_line(secs),
{
    let a: [u8; 10] = [67u8, 79u8, 85u8, 78u8, 84u8, 68u8, 79u8, 87u8, 78u8, 32u8];
    proof {
        assert(a@ =~= lit_countdown());
    }
    let mut v = lit_vec(Ghost(lit_countdown()), a.as_slice());
    push_u64(&mut v, secs);
    v.push(10);
    proof {
        assert(v@ =~= countdown_line(secs));
    }
    v
}

/// Render `STARTING`.
pub fn render_starting() -> (r: Vec<u8>)
    ensures
        r@ == starting_line(),
{
    let a: [u8; 8] = [83u8, 84u8, 65u8, 82u8, 84u8, 73u8, 78u8, 71u8];
    proof {
        assert(a@ =~= lit_starting());
    }
    let mut v = lit_vec(Ghost(lit_starting()), a.as_slice());
    v.push(10);
    proof {
        assert(v@ =~= starting_line());
    }
    v
}

/// Render `STATE <id> <word> <char> <mistake>`.
pub fn render_state(id: u64, ps: PlayerState) -> (r: Vec<u8>)
    ensures
        r@ == state_line(id, ps),
{
    let a: [u8; 6] = [83u8, 84u8, 65u8, 84u8, 69u8, 32u8];
    proof {
        assert(a@ =~= lit_state_prefix());
    }
    let mut v = lit_vec(Ghost(lit_state_prefix()), a.as_slice());
    push_u64(&mut v, id);
    v.push(32);
    push_u64(&mut v, ps.current_word);
    v.push(32);
    push_u64(&mut v, ps.current_completed_character);
    v.push(32);
    if ps.did_make_mistake {
        v.push(49);
    } else {
        v.push(48);
    }
    v.push(10);
    proof {
        assert(v@ =~= state_line(id, ps));
    }
    v
}

/// Render `FINISHED <id>`.
pub fn render_finished(id: u64) -> (r: Vec<u8>)
    ensures
        r@ == finished_line(id),
{
    let a: [u8; 9] = [70u8, 73u8, 78u8, 73u8, 83u8, 72u8, 69u8, 68u8, 32u8];
    proof {
        assert(a@ =~= lit_finished());
    }
    let mut v = lit_vec(Ghost(lit_finished()), a.as_slice());
    push_u64(&mut v, id);
    v.push(10);
    proof {
        assert(v@ =~= finished_line(id));
    }
    v
}


// ------------------------------------------------------------ round trip

/// The wire line (without terminator) a client sends for a command.
/// Only the six wire commands have one; the synthetic `Disconnect` and
/// `Words` commands never travel as text and render empty.
pub open spec fn encoded_command(c: Command) -> Seq<u8> {
    match c {
        Command::Start => lit_start(),
        Command::Create => lit_create(),
        Command::Restart => lit_restart(),
        Command::JoinRandom => lit_join_random(),
        Command::Join(code) => lit_join_prefix() + code@,
        Command::State(ps) => lit_state_prefix() + digits_of(ps.current_word as int)
            + seq![32u8] + digits_of(ps.current_completed_character as int) + seq![32u8] + (
        if ps.did_make_mistake {
            seq![49u8]
        } else {
            seq![48u8]
        }),
        Command::Disconnect => Seq::empty(),
        Command::Words => Seq::empty(),
    }
}

/// Render the wire form of a command.
pub fn render_command(c: Command) -> (r: Vec<u8>)
    ensures
        r@ == encoded_command(c),
{
    match c {
        Command::Start => lit_start_vec(),
        Command::Create => lit_create_vec(),
        Command::Restart => lit_restart_vec(),
        Command::JoinRandom => lit_join_random_vec(),
        Command::Join(code) => {
            let mut v = lit_join_prefix_vec();
            push_code(&mut v, code);
            v
        },
        Command::State(ps) => {
            let mut v = lit_state_prefix_vec();
            push_u64(&mut v, ps.current_word);
            v.push(32);
            push_u64(&mut v, ps.current_completed_character);
            v.push(32);
            if ps.did_make_mistake {
                v.push(49);
            } else {
                v.push(48);
            }
            proof {
                assert(v@ =~= encoded_command(c));
            }
            v
        },
        Command::Disconnect => {
            let v: Vec<u8> = Vec::new();
            proof {
                assert(v@ =~= Seq::<u8>::empty());
            }
            v
        },
        Command::Words => {
            let v: Vec<u8> = Vec::new();
            proof {
                assert(v@ =~= Seq::<u8>::empty());
            }
            v
        },
    }
}

/// A maximal digit run bounded by whitespace or the end of the line is
/// scanned as exactly one numeric token.
pub proof fn lemma_mid_token(s: Seq<u8>, i: int, t: Seq<u8>)
    requires
        0 <= i,
        i + t.len() <= s.len(),
        t.len() >= 1,
        all_digits(t),
        s.subrange(i, i + t.len()) == t,
        i + t.len() == s.len() || is_ws(s[i + t.len()]),
    ensures
        skip_ws(s, i) == i,
        token_end(s, i) == i + t.len(),
        token_num(s, i, i + t.len()) == if dec_value(t) <= u64::MAX {
            Some(dec_value(t))
        } else {
            Option::<int>::None
        },
{
    assert forall|k: int| i <= k < i + t.len() implies !is_ws(#[trigger] s[k]) by {
        assert(s.subrange(i, i + t.len())[k - i] == s[k]);
        assert(is_digit(t[k - i]));
    }
    assert(!is_ws(s[i]));
    lemma_token_run(s, i, i + t.len());
}

/// Rendering any wire command and parsing the rendered line yields the
/// command back unchanged.
#[verifier::rlimit(80)]
#[verifier::spinoff_prover]
pub proof fn lemma_command_round_trip(c: Command)
    requires
        !(c is Disconnect),
        !(c is Words),
    ensures
        spec_parse_command(encoded_command(c)) == Ok::<Command, ParseError>(c),
{
    let s = encoded_command(c);
    match c {
        Command::Start => {
        },
        Command::Create => {
            assert(s[0] == 67);
            assert(!has_prefix(s, lit_state_prefix())) by {
                if has_prefix(s, lit_state_prefix()) {
                    assert(s.subrange(0, 6)[0] == s[0]);
                }
            }
        },
        Command::Restart => {
            assert(s[0] == 82);
            assert(!has_prefix(s, lit_state_prefix())) by {
                if has_prefix(s, lit_state_prefix()) {
                    assert(s.subrange(0, 6)[0] == s[0]);
                }
            }
            assert(!has_prefix(s, lit_join_prefix())) by {
                if has_prefix(s, lit_join_prefix()) {
                    assert(s.subrange(0, 5)[0] == s[0]);
                }
            }
        },
        Command::JoinRandom => {
            assert(s[0] == 74);
            assert(!has_prefix(s, lit_state_prefix())) by {
                if has_prefix(s, lit_state_prefix()) {
                    assert(s.subrange(0, 6)[0] == s[0]);
                }
            }
        },
        Command::Join(code) => {
            assert(s.len() == 10);
            assert(s[0] == 74);
            assert(!has_prefix(s, lit_state_prefix())) by {
                if has_prefix(s, lit_state_prefix()) {
                    assert(s.subrange(0, 6)[0] == s[0]);
                }
            }
            assert(has_prefix(s, lit_join_prefix())) by {
                assert(s.subrange(0, 5) =~= lit_join_prefix());
            }
            assert(s[5] == code.0 && s[6] == code.1 && s[7] == code.2 && s[8] == code.3 && s[9]
                == code.4);
            assert(LobbyCode(s[5], s[6], s[7], s[8], s[9]) == code);
        },
        Command::State(ps) => {
            let a = digits_of(ps.current_word as int);
            let b = digits_of(ps.current_completed_character as int);
            let cd = if ps.did_make_mistake {
                seq![49u8]
            } else {
                seq![48u8]
            };
            lemma_digits_of(ps.current_word as int);
            lemma_digits_of(ps.current_completed_character as int);
            let a0: int = 6;
            let a1 = a0 + a.len() as int;
            let b0 = a1 + 1;
            let b1 = b0 + b.len() as int;
            let c0 = b1 + 1;
            let c1 = c0 + 1;
            assert(s.len() == c1);
            assert(s[0] == 83);
            assert(has_prefix(s, lit_state_prefix())) by {
                assert(s.subrange(0, 6) =~= lit_state_prefix());
            }
            assert(s.subrange(a0, a1) =~= a);
            assert(s.subrange(b0, b1) =~= b);
            assert(s.subrange(c0, c1) =~= cd);
            assert(s[a1] == 32 && s[b1] == 32);
            assert(all_digits(cd));
            lemma_mid_token(s, a0, a);
            lemma_mid_token(s, b0, b);
            lemma_mid_token(s, c0, cd);
            lemma_skip_one_ws(s, a1);
            lemma_skip_one_ws(s, b1);
            assert(dec_value(cd) == if ps.did_make_mistake {
                1int
            } else {
                0int
            }) by {
                assert(cd.drop_last() =~= Seq::<u8>::empty());
                assert(dec_value(Seq::<u8>::empty()) == 0);
            }
            assert(spec_parse_state(s, 6) == Ok::<Command, ParseError>(c));
        },
        _ => {
        },
    }
}


// ------------------------------------------------------------- buffering

/// The complete lines, each with its terminator restored, laid end to
/// end: what the byte stream held before the unterminated tail.
pub open spec fn joined(lines: Seq<Vec<u8>>) -> Seq<u8>
    decreases lines.len(),
{
    if lines.len() == 0 {
        Seq::empty()
    } else {
        joined(lines.drop_last()) + lines.last()@ + seq![10u8]
    }
}

/// Drain every complete (newline-terminated) line out of the inbound
/// buffer, leaving the unterminated tail for the next read.  No
/// extracted line and no tail holds a terminator.
pub fn split_lines(buf: &mut Vec<u8>) -> (r: Vec<Vec<u8>>)
    ensures
        joined(r@) + final(buf)@ == old(buf)@,
        forall|i: int, t: int| 0 <= i < r@.len() && 0 <= t < r@[i]@.len() ==> r@[i]@[t] != 10,
        forall|t: int| 0 <= t < final(buf)@.len() ==> final(buf)@[t] != 10,
{
    let mut lines: Vec<Vec<u8>> = Vec::new();
    let mut cur: Vec<u8> = Vec::new();
    let n = buf.len();
    let mut i: usize = 0;
    proof {
        assert(joined(lines@) + cur@ =~= buf@.subrange(0, 0));
    }
    while i < n
        invariant
            0 <= i <= n == buf@.len(),
            joined(lines@) + cur@ == buf@.subrange(0, i as int),
            forall|a: int, t: int|
                0 <= a < lines@.len() && 0 <= t < lines@[a]@.len() ==> lines@[a]@[t] != 10,
            forall|t: int| 0 <= t < cur@.len() ==> cur@[t] != 10,
        decreases n - i,
    {
        let b = buf[i];
        if b == 10 {
            let ghost pre_lines = lines@;
            let ghost pre_cur = cur@;
            let done = cur;
            cur = Vec::new();
            lines.push(done);
            proof {
                assert(lines@.drop_last() =~= pre_lines);
                assert(lines@.last()@ == pre_cur);
                assert(joined(lines@) == joined(pre_lines) + pre_cur + seq![10u8]);
                assert(joined(lines@) + cur@ =~= buf@.subrange(0, i as int + 1)) by {
                    assert(buf@.subrange(0, i as int + 1) =~= buf@.subrange(0, i as int).push(
                        buf@[i as int],
                    ));
                }
                assert forall|a: int, t: int|
                    0 <= a < lines@.len() && 0 <= t < lines@[a]@.len() implies lines@[a]@[t]
                    != 10 by {
                    if a < pre_lines.len() {
                        assert(lines@[a] == pre_lines[a]);
                    } else {
                        assert(lines@[a]@ == pre_cur);
                    }
                }
            }
        } else {
            cur.push(b);
            proof {
                assert(joined(lines@) + cur@ =~= buf@.subrange(0, i as int + 1)) by {
                    assert(buf@.subrange(0, i as int + 1) =~= buf@.subrange(0, i as int).push(
                        buf@[i as int],
                    ));
                }
            }
        }
        i = i + 1;
    }
    proof {
        assert(buf@.subrange(0, n as int) =~= buf@);
    }
    *buf = cur;
    lines
}


// --------------------------------------------- message lines, read back

/// A decoded server-to-client message.  It lives at specification level
/// (the word list is a sequence of byte strings); the server only ever
/// renders these lines, so reading them back serves the round-trip
/// statement, not the wire loop.
pub enum ServerMessage {
    Connected(u64),
    Created(LobbyCode),
    Joined(LobbyCode),
    JoinFailed,
    Words(Seq<Seq<u8>>),
    Countdown(u64),
    Starting,
    Progress { client_id: u64, state: PlayerState },
    Finished(u64),
}

/// The wire line of a message: what the renderers emit.
pub open spec fn rendered_message(m: ServerMessage) -> Seq<u8> {
    match m {
        ServerMessage::Connected(id) => connected_line(id),
        ServerMessage::Created(code) => created_line(code),
        ServerMessage::Joined(code) => joined_line(code),
        ServerMessage::JoinFailed => join_failed_line(),
        ServerMessage::Words(ws) => lit_words() + words_payload(ws) + seq![10u8],
        ServerMessage::Countdown(secs) => countdown_line(secs),
        ServerMessage::Starting => starting_line(),
        ServerMessage::Progress { client_id, state } => state_line(client_id, state),
        ServerMessage::Finished(id) => finished_line(id),
    }
}

/// The first index at or after `i` holding a space, or the end.
pub open spec fn first_sp(s: Seq<u8>, i: int) -> int
    decreases s.len() - i,
{
    if i < 0 || i >= s.len() {
        i
    } else if s[i] == 32 {
        i
    } else {
        first_sp(s, i + 1)
    }
}

/// Split on single spaces, from the front.
pub open spec fn split_sp(s: Seq<u8>) -> Seq<Seq<u8>>
    decreases s.len(),
{
    let e = first_sp(s, 0);
    if e < 0 || e >= s.len() {
        seq![s]
    } else {
        seq![s.subrange(0, e)] + split_sp(s.subrange(e + 1, s.len() as int))
    }
}

/// A number between a known prefix and the line terminator.
pub open spec fn num_after(s: Seq<u8>, p: Seq<u8>) -> Option<u64> {
    if has_prefix(s, p) && s.len() >= p.len() + 2 && s.last() == 10 && all_digits(
        s.subrange(p.len() as int, s.len() - 1),
    ) && dec_value(s.subrange(p.len() as int, s.len() - 1)) <= u64::MAX {
        Some(dec_value(s.subrange(p.len() as int, s.len() - 1)) as u64)
    } else {
        None
    }
}

/// A five-byte lobby code between a known prefix and the terminator.
pub open spec fn code_after(s: Seq<u8>, p: Seq<u8>) -> Option<LobbyCode> {
    if has_prefix(s, p) && s.len() == p.len() + 6 && s.last() == 10 {
        Some(
            LobbyCode(
                s[p.len() as int],
                s[p.len() as int + 1],
                s[p.len() as int + 2],
                s[p.len() as int + 3],
                s[p.len() as int + 4],
            ),
        )
    } else {
        None
    }
}

/// The four whitespace-separated fields of a progress broadcast.
pub open spec fn parsed_progress(s: Seq<u8>) -> Option<ServerMessage> {
    let i0 = skip_ws(s, lit_state_prefix().len() as int);
    if i0 >= s.len() {
        None
    } else {
        let e0 = token_end(s, i0);
        match token_num(s, i0, e0) {
            None => None,
            Some(id) => match spec_parse_state(s, e0) {
                Ok(Command::State(ps)) => Some(
                    ServerMessage::Progress { client_id: id as u64, state: ps },
                ),
                _ => None,
            },
        }
    }
}

/// The grammar of outbound lines, tried in a fixed order.
pub open spec fn spec_parse_message(s: Seq<u8>) -> Option<ServerMessage> {
    if s == starting_line() {
        Some(ServerMessage::Starting)
    } else if s == join_failed_line() {
        Some(ServerMessage::JoinFailed)
    } else if has_prefix(s, lit_connected()) {
        match num_after(s, lit_connected()) {
            Some(id) => Some(ServerMessage::Connected(id)),
            None => None,
        }
    } else if has_prefix(s, lit_created()) {
        match code_after(s, lit_created()) {
            Some(code) => Some(ServerMessage::Created(code)),
            None => None,
        }
    } else if has_prefix(s, lit_joined()) {
        match code_after(s, lit_joined()) {
            Some(code) => Some(ServerMessage::Joined(code)),
            None => None,
        }
    } else if has_prefix(s, lit_countdown()) {
        match num_after(s, lit_countdown()) {
            Some(n) => Some(ServerMessage::Countdown(n)),
            None => None,
        }
    } else if has_prefix(s, lit_finished()) {
        match num_after(s, lit_finished()) {
            Some(id) => Some(ServerMessage::Finished(id)),
            None => None,
        }
    } else if has_prefix(s, lit_state_prefix()) {
        parsed_progress(s)
    } else if has_prefix(s, lit_words()) {
        if s.len() >= lit_words().len() + 1 && s.last() == 10 {
            Some(
                ServerMessage::Words(
                    split_sp(s.subrange(lit_words().len() as int, s.len() - 1)),
                ),
            )
        } else {
            None
        }
    } else {
        None
    }
}

/// A run of non-space bytes ends at the next space or the end.
pub proof fn lemma_first_sp_run(s: Seq<u8>, i: int, j: int)
    requires
        0 <= i <= j <= s.len(),
        forall|k: int| i <= k < j ==> s[k] != 32,
        j == s.len() || s[j] == 32,
    ensures
        first_sp(s, i) == j,
    decreases j - i,
{
    if i < j {
        lemma_first_sp_run(s, i + 1, j);
    }
}

/// The word joiner, unfolded from the front.
pub proof fn lemma_payload_front(ws: Seq<Seq<u8>>)
    requires
        ws.len() >= 2,
    ensures
        words_payload(ws) == ws[0] + seq![32u8] + words_payload(ws.drop_first()),
    decreases ws.len(),
{
    if ws.len() == 2 {
        assert(ws.drop_last() =~= seq![ws[0]]);
        assert(ws.drop_first() =~= seq![ws[1]]);
        assert(words_payload(ws) =~= ws[0] + seq![32u8] + ws[1]);
    } else {
        lemma_payload_front(ws.drop_last());
        assert(ws.drop_last()[0] == ws[0]);
        assert(ws.drop_last().drop_first() =~= ws.drop_first().drop_last());
        assert(ws.drop_first().last() == ws.last());
        assert(ws.drop_first().len() >= 2);
        assert(words_payload(ws) == words_payload(ws.drop_last()) + seq![32u8] + ws.last());
        assert(words_payload(ws.drop_first()) == words_payload(ws.drop_first().drop_last())
            + seq![32u8] + ws.last());
        assert(words_payload(ws) =~= ws[0] + seq![32u8] + words_payload(ws.drop_first()));
    }
}

/// Splitting the joined word list gives the words back, as long as each
/// word is non-empty and space-free.
pub proof fn lemma_split_join(ws: Seq<Seq<u8>>)
    requires
        ws.len() >= 1,
        forall|i: int|
            0 <= i < ws.len() ==> (#[trigger] ws[i]).len() >= 1 && forall|t: int|
                0 <= t < ws[i].len() ==> ws[i][t] != 32,
    ensures
        split_sp(words_payload(ws)) == ws,
    decreases ws.len(),
{
    let p = words_payload(ws);
    if ws.len() == 1 {
        assert(p == ws[0]);
        lemma_first_sp_run(p, 0, p.len() as int);
        assert(split_sp(p) =~= ws);
    } else {
        lemma_payload_front(ws);
        let w0 = ws[0];
        let rest = words_payload(ws.drop_first());
        assert(p =~= w0 + seq![32u8] + rest);
        assert forall|k: int| 0 <= k < w0.len() implies p[k] != 32 by {
            assert(p[k] == w0[k]);
        }
        assert(p[w0.len() as int] == 32);
        lemma_first_sp_run(p, 0, w0.len() as int);
        assert(p.subrange(0, w0.len() as int) =~= w0);
        assert(p.subrange(w0.len() as int + 1, p.len() as int) =~= rest);
        lemma_split_join(ws.drop_first());
        assert(split_sp(p) =~= seq![w0] + ws.drop_first());
        assert(seq![w0] + ws.drop_first() =~= ws);
    }
}


/// Rendering any server message and reading the rendered line back
/// yields the message unchanged; for a word-list line this holds
/// whenever every word is non-empty and free of spaces, as dictionary
/// words are.
#[verifier::rlimit(80)]
#[verifier::spinoff_prover]
pub proof fn lemma_message_round_trip(m: ServerMessage)
    requires
        m matches ServerMessage::Words(ws) ==> ws.len() >= 1 && forall|i: int|
            0 <= i < ws.len() ==> (#[trigger] ws[i]).len() >= 1 && forall|t: int|
                0 <= t < ws[i].len() ==> ws[i][t] != 32,
    ensures
        spec_parse_message(rendered_message(m)) == Some(m),
{
    let s = rendered_message(m);
    match m {
        ServerMessage::Starting => {
        },
        ServerMessage::JoinFailed => {
            assert(s.len() == 12);
        },
        ServerMessage::Connected(id) => {
            lemma_digits_of(id as int);
            let d = digits_of(id as int);
            assert(s[0] == 67);
            refute_prefixes(s);
            assert(has_prefix(s, lit_connected())) by {
                assert(s.subrange(0, 10) =~= lit_connected());
            }
            assert(s.last() == 10);
            assert(s.subrange(10, s.len() - 1) =~= d);
            assert(num_after(s, lit_connected()) == Some(id));
        },
        ServerMessage::Created(code) => {
            assert(s[0] == 67 && s[1] == 82);
            assert(s.len() == 14);
            refute_prefixes(s);
            assert(has_prefix(s, lit_created())) by {
                assert(s.subrange(0, 8) =~= lit_created());
            }
            assert(s.last() == 10);
            assert(s[8] == code.0 && s[9] == code.1 && s[10] == code.2 && s[11] == code.3 && s[12]
                == code.4);
            assert(code_after(s, lit_created()) == Some(code));
        },
        ServerMessage::Joined(code) => {
            assert(s[0] == 74 && s[4] == 69);
            assert(s.len() == 13);
            refute_prefixes(s);
            assert(has_prefix(s, lit_joined())) by {
                assert(s.subrange(0, 7) =~= lit_joined());
            }
            assert(s.last() == 10);
            assert(s[7] == code.0 && s[8] == code.1 && s[9] == code.2 && s[10] == code.3 && s[11]
                == code.4);
            assert(code_after(s, lit_joined()) == Some(code));
        },
        ServerMessage::Countdown(n) => {
            lemma_digits_of(n as int);
            let d = digits_of(n as int);
            assert(s[0] == 67 && s[1] == 79 && s[2] == 85);
            refute_prefixes(s);
            assert(has_prefix(s, lit_countdown())) by {
                assert(s.subrange(0, 10) =~= lit_countdown());
            }
            assert(s.last() == 10);
            assert(s.subrange(10, s.len() - 1) =~= d);
            assert(num_after(s, lit_countdown()) == Some(n));
        },
        ServerMessage::Finished(id) => {
            lemma_digits_of(id as int);
            let d = digits_of(id as int);
            assert(s[0] == 70);
            refute_prefixes(s);
            assert(has_prefix(s, lit_finished())) by {
                assert(s.subrange(0, 9) =~= lit_finished());
            }
            assert(s.last() == 10);
            assert(s.subrange(9, s.len() - 1) =~= d);
            assert(num_after(s, lit_finished()) == Some(id));
        },
        ServerMessage::Progress { client_id, state } => {
            lemma_progress_round_trip(client_id, state);
        },
        ServerMessage::Words(ws) => {
            lemma_words_round_trip(ws);
        },
    }
}

#[verifier::rlimit(80)]
#[verifier::spinoff_prover]
proof fn lemma_progress_round_trip(client_id: u64, state: PlayerState)
    ensures
        spec_parse_message(state_line(client_id, state)) == Some(
            ServerMessage::Progress { client_id, state },
        ),
{
    let m = ServerMessage::Progress { client_id, state };
    let s = state_line(client_id, state);
    {
        {
            let a = digits_of(client_id as int);
            let b = digits_of(state.current_word as int);
            let cc = digits_of(state.current_completed_character as int);
            let md = if state.did_make_mistake {
                seq![49u8]
            } else {
                seq![48u8]
            };
            lemma_digits_of(client_id as int);
            lemma_digits_of(state.current_word as int);
            lemma_digits_of(state.current_completed_character as int);
            let a0: int = 6;
            let a1 = a0 + a.len() as int;
            let b0 = a1 + 1;
            let b1 = b0 + b.len() as int;
            let c0 = b1 + 1;
            let c1 = c0 + cc.len() as int;
            let m0 = c1 + 1;
            let m1 = m0 + 1;
            assert(s.len() == m1 + 1);
            assert(s[0] == 83 && s[3] == 84);
            refute_prefixes(s);
            assert(has_prefix(s, lit_state_prefix())) by {
                assert(s.subrange(0, 6) =~= lit_state_prefix());
            }
            assert(s.subrange(a0, a1) =~= a);
            assert(s.subrange(b0, b1) =~= b);
            assert(s.subrange(c0, c1) =~= cc);
            assert(s.subrange(m0, m1) =~= md);
            assert(s[a1] == 32 && s[b1] == 32 && s[c1] == 32 && s[m1] == 10);
            assert(all_digits(md));
            lemma_mid_token(s, a0, a);
            lemma_mid_token(s, b0, b);
            lemma_mid_token(s, c0, cc);
            lemma_mid_token(s, m0, md);
            lemma_skip_one_ws(s, a1);
            lemma_skip_one_ws(s, b1);
            lemma_skip_one_ws(s, c1);
            assert(dec_value(md) == if state.did_make_mistake {
                1int
            } else {
                0int
            }) by {
                assert(md.drop_last() =~= Seq::<u8>::empty());
                assert(dec_value(Seq::<u8>::empty()) == 0);
            }
            assert(spec_parse_state(s, a1) == Ok::<Command, ParseError>(Command::State(state)));
            assert(parsed_progress(s) == Some(m));
        }
    }
}

#[verifier::rlimit(60)]
#[verifier::spinoff_prover]
proof fn lemma_words_round_trip(ws: Seq<Seq<u8>>)
    requires
        ws.len() >= 1,
        forall|i: int|
            0 <= i < ws.len() ==> (#[trigger] ws[i]).len() >= 1 && forall|t: int|
                0 <= t < ws[i].len() ==> ws[i][t] != 32,
    ensures
        spec_parse_message(lit_words() + words_payload(ws) + seq![10u8]) == Some(
            ServerMessage::Words(ws),
        ),
{
    let m = ServerMessage::Words(ws);
    let s = lit_words() + words_payload(ws) + seq![10u8];
    {
        {
            let p = words_payload(ws);
            assert(p.len() >= 1) by {
                if ws.len() == 1 {
                    assert(p == ws[0]);
                } else {
                    assert(p == words_payload(ws.drop_last()) + seq![32u8] + ws.last());
                }
            }
            assert(s[0] == 87);
            assert(s.len() >= 8);
            refute_prefixes(s);
            assert(has_prefix(s, lit_words())) by {
                assert(s.subrange(0, 6) =~= lit_words());
            }
            assert(s.last() == 10);
            assert(s.subrange(6, s.len() - 1) =~= p);
            lemma_split_join(ws);
        }
    }
}

/// The wire prefixes of the message grammar are told apart by their
/// first bytes and lengths; knowing a line's leading bytes rules the
/// others out.
proof fn refute_prefixes(s: Seq<u8>)
    ensures
        s.len() >= 1 && s[0] != 83 ==> s != starting_line() && !has_prefix(s, lit_state_prefix()),
        s.len() >= 4 && s[0] == 83 && s[3] == 84 ==> s != starting_line(),
        s.len() >= 1 && s[0] != 74 ==> s != join_failed_line() && !has_prefix(s, lit_joined()),
        s.len() >= 5 && s[0] == 74 && s[4] == 69 ==> s != join_failed_line(),
        s.len() >= 1 && s[0] != 67 ==> !has_prefix(s, lit_connected()) && !has_prefix(
            s,
            lit_created(),
        ) && !has_prefix(s, lit_countdown()),
        s.len() >= 3 && s[0] == 67 && s[1] == 82 ==> !has_prefix(s, lit_connected())
            && !has_prefix(s, lit_countdown()),
        s.len() >= 3 && s[0] == 67 && s[1] == 79 && s[2] == 85 ==> !has_prefix(s, lit_connected())
            && !has_prefix(s, lit_created()),
        s.len() >= 3 && s[0] == 67 && s[1] == 79 && s[2] == 78 ==> !has_prefix(s, lit_created())
            && !has_prefix(s, lit_countdown()),
        s.len() >= 1 && s[0] != 70 ==> !has_prefix(s, lit_finished()),
        s.len() >= 1 && s[0] != 87 ==> !has_prefix(s, lit_words()),
{
    if s.len() >= 1 {
        if s == starting_line() {
            assert(s[0] == 83 && s[3] == 82);
        }
        if s == join_failed_line() {
            assert(s[0] == 74 && s[4] == 95);
        }
        if has_prefix(s, lit_state_prefix()) {
            assert(s.subrange(0, 6)[0] == s[0]);
        }
        if has_prefix(s, lit_joined()) {
            assert(s.subrange(0, 7)[0] == s[0]);
        }
        if has_prefix(s, lit_connected()) {
            assert(s.subrange(0, 10)[0] == s[0]);
            assert(s.subrange(0, 10)[1] == s[1]);
            assert(s.subrange(0, 10)[2] == s[2]);
        }
        if has_prefix(s, lit_created()) {
            assert(s.subrange(0, 8)[0] == s[0]);
            assert(s.subrange(0, 8)[1] == s[1]);
        }
        if has_prefix(s, lit_countdown()) {
            assert(s.subrange(0, 10)[0] == s[0]);
            assert(s.subrange(0, 10)[1] == s[1]);
            assert(s.subrange(0, 10)[2] == s[2]);
        }
        if has_prefix(s, lit_finished()) {
            assert(s.subrange(0, 9)[0] == s[0]);
        }
        if has_prefix(s, lit_words()) {
            assert(s.subrange(0, 6)[0] == s[0]);
        }
    }
}

} // verus!
