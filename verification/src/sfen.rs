use vstd::prelude::*;
use crate::direction::Direction;
use crate::types::{Point, Snake, Board, GameState};
use crate::text::{
    str_chars, string_from_chars, is_digit, all_digits, digits_value, dec_string, signed_string,
    parse_unsigned_spec, parse_signed_spec, parse_usize, parse_u32, parse_i32, push_dec, push_signed,
    lemma_dec_string_digits, split_once_spec, split_once_chars, split_spec, split_chars, views,
    trim_spec, trim_chars, words_spec, split_whitespace_chars, lower_spec, lower_chars, chars_eq_str,
    first_index_from, is_ws, lead_ws, trail_ws, split_ws_raw, lemma_split_ws_nonempty,
};

verus! {

/// Why a position string could not be read.
#[derive(Debug, Clone, PartialEq, Eq)]
pub enum SnakeFenError {
    EmptyInput,
    BadFieldCount(usize),
    InvalidDims(String),
    InvalidBoardSize(i32, i32),
    InvalidMeta(String),
    InvalidNumber { field: &'static str, value: String },
    InvalidBody(String),
    InvalidPathStep(char),
    InvalidFoodGrid,
    InvalidMove(char),
    InvalidRle(String),
}

/// The errors of a position string, with text as character sequences. `Overflow` stands for
/// inputs whose decoding leaves the range of `i32`; no function returns it.
pub ghost enum FenErr {
    EmptyInput,
    BadFieldCount(nat),
    InvalidDims(Seq<char>),
    InvalidBoardSize(int, int),
    InvalidMeta(Seq<char>),
    InvalidNumber(Seq<char>, Seq<char>),
    InvalidBody(Seq<char>),
    InvalidPathStep(char),
    InvalidFoodGrid,
    InvalidMove(char),
    InvalidRle(Seq<char>),
    Overflow,
}

/// The model of an error value.
pub open spec fn err_model(e: SnakeFenError) -> FenErr {
    match e {
        SnakeFenError::EmptyInput => FenErr::EmptyInput,
        SnakeFenError::BadFieldCount(n) => FenErr::BadFieldCount(n as nat),
        SnakeFenError::InvalidDims(s) => FenErr::InvalidDims(s@),
        SnakeFenError::InvalidBoardSize(c, r) => FenErr::InvalidBoardSize(c as int, r as int),
        SnakeFenError::InvalidMeta(s) => FenErr::InvalidMeta(s@),
        SnakeFenError::InvalidNumber { field, value } => FenErr::InvalidNumber(field@, value@),
        SnakeFenError::InvalidBody(s) => FenErr::InvalidBody(s@),
        SnakeFenError::InvalidPathStep(c) => FenErr::InvalidPathStep(c),
        SnakeFenError::InvalidFoodGrid => FenErr::InvalidFoodGrid,
        SnakeFenError::InvalidMove(c) => FenErr::InvalidMove(c),
        SnakeFenError::InvalidRle(s) => FenErr::InvalidRle(s@),
    }
}

/// Whether an exec result agrees with a spec result whose values are given by `f`.
pub open spec fn agrees<T, V>(r: Result<T, SnakeFenError>, s: Result<V, FenErr>, f: spec_fn(T) -> V) -> bool {
    match r {
        Ok(v) => s == Ok::<V, FenErr>(f(v)),
        Err(e) => s == Err::<V, FenErr>(err_model(e)),
    }
}

/// Like `agrees`, with `Err(None)` standing for an input whose decoding leaves the range of
/// `i32`.
pub open spec fn checked_agrees<T, V>(r: Result<T, Option<SnakeFenError>>, s: Result<V, FenErr>, f: spec_fn(T) -> V) -> bool {
    match r {
        Ok(v) => s == Ok::<V, FenErr>(f(v)),
        Err(Some(e)) => s == Err::<V, FenErr>(err_model(e)),
        Err(None) => s == Err::<V, FenErr>(FenErr::Overflow),
    }
}

/// No error value stands for an overflow.
pub proof fn lemma_err_model_not_overflow(e: SnakeFenError)
    ensures
        err_model(e) != FenErr::Overflow,
{
}

/// `str::parse::<i32>`.
pub open spec fn i32_of(s: Seq<char>) -> Option<int> {
    match parse_signed_spec(s) {
        Some(v) => if i32::MIN <= v <= i32::MAX { Some(v) } else { None },
        None => None,
    }
}

/// `str::parse::<u32>`.
pub open spec fn u32_of(s: Seq<char>) -> Option<int> {
    match parse_unsigned_spec(s) {
        Some(v) => if v <= u32::MAX { Some(v as int) } else { None },
        None => None,
    }
}

/// `str::parse::<usize>`.
pub open spec fn usize_of(s: Seq<char>) -> Option<nat> {
    match parse_unsigned_spec(s) {
        Some(v) => if v <= usize::MAX { Some(v) } else { None },
        None => None,
    }
}

/// An `i32` field, or the error naming the field and the text.
fn number_i32(field: &'static str, raw: &[char]) -> (r: Result<i32, SnakeFenError>)
    ensures
        match i32_of(raw@) {
            Some(v) => r == Ok::<i32, SnakeFenError>(v as i32),
            None => r is Err && err_model(r->Err_0) == FenErr::InvalidNumber(field@, raw@),
        },
{
    match parse_i32(raw) {
        Some(v) => Ok(v),
        None => Err(SnakeFenError::InvalidNumber { field, value: string_from_chars(raw) }),
    }
}

/// A `u32` field, or the error naming the field and the text.
fn number_u32(field: &'static str, raw: &[char]) -> (r: Result<u32, SnakeFenError>)
    ensures
        match u32_of(raw@) {
            Some(v) => r == Ok::<u32, SnakeFenError>(v as u32),
            None => r is Err && err_model(r->Err_0) == FenErr::InvalidNumber(field@, raw@),
        },
{
    match parse_u32(raw) {
        Some(v) => Ok(v),
        None => Err(SnakeFenError::InvalidNumber { field, value: string_from_chars(raw) }),
    }
}

// ---------------------------------------------------------------------------------------------
// Run-length encoding: a run of `n > 1` equal characters is written as `n` followed by the
// character; a single character is written as itself.
// ---------------------------------------------------------------------------------------------

/// The number of leading characters of `s` equal to `c`.
pub open spec fn lead_run(s: Seq<char>, c: char) -> nat
    decreases s.len(),
{
    if s.len() > 0 && s[0] == c { 1 + lead_run(s.drop_first(), c) } else { 0 }
}

/// `lead_run` counts a prefix of equal characters ended by the end of `s` or another character.
pub proof fn lemma_lead_run(s: Seq<char>, c: char)
    ensures
        lead_run(s, c) <= s.len(),
        forall|i: int| 0 <= i < lead_run(s, c) ==> s[i] == c,
        lead_run(s, c) < s.len() ==> s[lead_run(s, c) as int] != c,
    decreases s.len(),
{
    if s.len() > 0 && s[0] == c {
        lemma_lead_run(s.drop_first(), c);
        assert forall|i: int| 0 <= i < lead_run(s, c) implies s[i] == c by {
            if i > 0 {
                assert(s[i] == s.drop_first()[i - 1]);
            }
        }
    }
}

/// A prefix of `n` copies of `c` followed by the end or another character is a run of `n`.
pub proof fn lemma_lead_run_exact(s: Seq<char>, c: char, n: nat)
    requires
        n <= s.len(),
        forall|i: int| 0 <= i < n ==> s[i] == c,
        n < s.len() ==> s[n as int] != c,
    ensures
        lead_run(s, c) == n,
    decreases n,
{
    if n > 0 {
        lemma_lead_run_exact(s.drop_first(), c, (n - 1) as nat);
    }
}

/// The run-length encoding of `s`.
pub open spec fn rle_enc_spec(s: Seq<char>) -> Seq<char>
    decreases s.len(),
{
    if s.len() == 0 {
        Seq::empty()
    } else {
        let n = lead_run(s, s[0]);
        proof {
            lemma_lead_run(s, s[0]);
        }
        (if n > 1 { dec_string(n) } else { Seq::empty() }) + seq![s[0]] + rle_enc_spec(s.skip(n as int))
    }
}

/// Decoding of `rest`, having produced `out` so far with the digits `cnt` pending.
pub open spec fn rle_dec_from(input: Seq<char>, out: Seq<char>, cnt: Seq<char>, rest: Seq<char>) -> Result<Seq<char>, FenErr>
    decreases rest.len(),
{
    if rest.len() == 0 {
        if cnt.len() > 0 { Err(FenErr::InvalidRle(input)) } else { Ok(out) }
    } else {
        let ch = rest[0];
        if is_digit(ch) {
            rle_dec_from(input, out, cnt.push(ch), rest.drop_first())
        } else if cnt.len() == 0 {
            rle_dec_from(input, out.push(ch), cnt, rest.drop_first())
        } else {
            match usize_of(cnt) {
                None => Err(FenErr::InvalidNumber("rle_count"@, cnt)),
                Some(n) => if n == 0 {
                    Err(FenErr::InvalidRle(input))
                } else {
                    rle_dec_from(input, out + Seq::new(n, |i: int| ch), Seq::empty(), rest.drop_first())
                },
            }
        }
    }
}

/// The run-length decoding of `input`: a count must be positive and be followed by a character.
pub open spec fn rle_decode_spec(input: Seq<char>) -> Result<Seq<char>, FenErr> {
    rle_dec_from(input, Seq::empty(), Seq::empty(), input)
}

/// A count of two or more takes fewer decimal digits than its value.
proof fn lemma_dec_string_short(n: nat)
    requires
        n >= 2,
    ensures
        dec_string(n).len() < n,
    decreases n,
{
    if n >= 10 {
        if n / 10 >= 2 {
            lemma_dec_string_short(n / 10);
        }
        assert(dec_string(n).len() == dec_string(n / 10).len() + 1);
        assert(dec_string(n / 10).len() <= n / 10) by {
            if n / 10 < 2 {
                assert(dec_string(n / 10).len() == 1);
            }
        }
    }
}

/// Run-length encoding never makes a text longer.
pub proof fn lemma_rle_no_longer(s: Seq<char>)
    ensures
        rle_enc_spec(s).len() <= s.len(),
    decreases s.len(),
{
    if s.len() > 0 {
        let n = lead_run(s, s[0]);
        lemma_lead_run(s, s[0]);
        assert(n >= 1);
        lemma_rle_no_longer(s.skip(n as int));
        if n > 1 {
            lemma_dec_string_short(n);
        }
    }
}

/// Run-length encodes `input`.
pub fn rle_encode(input: &[char]) -> (r: Vec<char>)
    ensures
        r@ == rle_enc_spec(input@),
{
    let mut out: Vec<char> = Vec::new();
    let mut i: usize = 0;
    assert(out@ + input@.skip(0) =~= input@);
    assert(out@ + rle_enc_spec(input@.skip(0)) =~= rle_enc_spec(input@));
    while i < input.len()
        invariant
            i <= input@.len(),
            out@ + rle_enc_spec(input@.skip(i as int)) == rle_enc_spec(input@),
        decreases input@.len() - i,
    {
        let current = input[i];
        let mut j: usize = i + 1;
        while j < input.len() && input[j] == current
            invariant
                i < j <= input@.len(),
                current == input@[i as int],
                forall|k: int| i <= k < j ==> input@[k] == current,
            decreases input@.len() - j,
        {
            j += 1;
        }
        let count = j - i;
        let ghost t = input@.skip(i as int);
        proof {
            lemma_lead_run_exact(t, current, count as nat);
            assert(t.skip(count as int) =~= input@.skip(j as int));
        }
        if count > 1 {
            push_dec(&mut out, count as u128);
        }
        out.push(current);
        proof {
            let pre = if count > 1 { dec_string(count as nat) } else { Seq::empty() };
            assert(rle_enc_spec(t) == pre + seq![current] + rle_enc_spec(input@.skip(j as int)));
        }
        i = j;
        assert(out@ + rle_enc_spec(input@.skip(i as int)) =~= rle_enc_spec(input@));
    }
    assert(input@.skip(i as int) =~= Seq::<char>::empty());
    out
}

/// Run-length decodes `input`.
pub fn rle_decode(input: &[char]) -> (r: Result<Vec<char>, SnakeFenError>)
    ensures
        agrees(r, rle_decode_spec(input@), |v: Vec<char>| v@),
{
    let mut out: Vec<char> = Vec::new();
    let mut count: Vec<char> = Vec::new();
    let mut i: usize = 0;
    assert(input@.skip(0) =~= input@);
    while i < input.len()
        invariant
            i <= input@.len(),
            rle_decode_spec(input@) == rle_dec_from(input@, out@, count@, input@.skip(i as int)),
        decreases input@.len() - i,
    {
        let ch = input[i];
        proof {
            assert(input@.skip(i as int)[0] == ch);
            assert(input@.skip(i as int).drop_first() =~= input@.skip(i + 1));
        }
        if '0' <= ch && ch <= '9' {
            count.push(ch);
        } else if count.len() == 0 {
            out.push(ch);
        } else {
            match parse_usize(count.as_slice()) {
                None => {
                    return Err(SnakeFenError::InvalidNumber { field: "rle_count", value: string_from_chars(count.as_slice()) });
                },
                Some(repeat) => {
                    if repeat == 0 {
                        return Err(SnakeFenError::InvalidRle(string_from_chars(input)));
                    }
                    let ghost before = out@;
                    let mut k: usize = 0;
                    while k < repeat
                        invariant
                            k <= repeat,
                            out@ == before + Seq::new(k as nat, |t: int| ch),
                        decreases repeat - k,
                    {
                        out.push(ch);
                        k += 1;
                        assert(out@ =~= before + Seq::new(k as nat, |t: int| ch));
                    }
                    count = Vec::new();
                    assert(count@ =~= Seq::<char>::empty());
                },
            }
        }
        i += 1;
    }
    assert(input@.skip(i as int) =~= Seq::<char>::empty());
    if count.len() > 0 {
        return Err(SnakeFenError::InvalidRle(string_from_chars(input)));
    }
    Ok(out)
}

/// Decoding a string of digits only stacks them on the pending count.
proof fn lemma_dec_digits(input: Seq<char>, out: Seq<char>, cnt: Seq<char>, d: Seq<char>, rest: Seq<char>)
    requires
        all_digits(d),
    ensures
        rle_dec_from(input, out, cnt, d + rest) == rle_dec_from(input, out, cnt + d, rest),
    decreases d.len(),
{
    if d.len() == 0 {
        assert(d + rest =~= rest);
        assert(cnt + d =~= cnt);
    } else {
        assert((d + rest)[0] == d[0]);
        assert((d + rest).drop_first() =~= d.drop_first() + rest);
        assert(cnt.push(d[0]) + d.drop_first() =~= cnt + d);
        lemma_dec_digits(input, out, cnt.push(d[0]), d.drop_first(), rest);
    }
}

/// Decoding the encoding of a digit-free text `t` appends `t` to the output.
proof fn lemma_rle_dec_enc(input: Seq<char>, out: Seq<char>, t: Seq<char>, rest: Seq<char>)
    requires
        forall|i: int| 0 <= i < t.len() ==> !is_digit(#[trigger] t[i]),
        t.len() <= usize::MAX,
    ensures
        rle_dec_from(input, out, Seq::empty(), rle_enc_spec(t) + rest) == rle_dec_from(input, out + t, Seq::empty(), rest),
    decreases t.len(),
{
    if t.len() == 0 {
        assert(rle_enc_spec(t) + rest =~= rest);
        assert(out + t =~= out);
    } else {
        let c = t[0];
        let n = lead_run(t, c);
        lemma_lead_run(t, c);
        let tail = t.skip(n as int);
        let x = rle_enc_spec(tail) + rest;
        let run = Seq::new(n, |i: int| c);
        assert(t =~= run + tail);
        assert forall|i: int| 0 <= i < tail.len() implies !is_digit(#[trigger] tail[i]) by {
            assert(tail[i] == t[i + n]);
        }
        if n > 1 {
            let d = dec_string(n);
            lemma_dec_string_digits(n);
            assert(rle_enc_spec(t) + rest =~= d + (seq![c] + x));
            lemma_dec_digits(input, out, Seq::empty(), d, seq![c] + x);
            assert(Seq::<char>::empty() + d =~= d);
            assert((seq![c] + x)[0] == c);
            assert((seq![c] + x).drop_first() =~= x);
            assert(parse_unsigned_spec(d) == Some(n)) by {
                assert(d.len() > 0 && d[0] != '+');
            }
        } else {
            assert(rle_enc_spec(t) + rest =~= seq![c] + x);
            assert((seq![c] + x)[0] == c);
            assert((seq![c] + x).drop_first() =~= x);
            assert(out.push(c) =~= out + run);
        }
        lemma_rle_dec_enc(input, out + run, tail, rest);
        assert(out + run + tail =~= out + t);
    }
}

/// Run-length decoding undoes run-length encoding for text without decimal digits.
pub proof fn lemma_rle_roundtrip(s: Seq<char>)
    requires
        forall|i: int| 0 <= i < s.len() ==> !is_digit(#[trigger] s[i]),
        s.len() <= usize::MAX,
    ensures
        rle_decode_spec(rle_enc_spec(s)) == Ok::<Seq<char>, FenErr>(s),
{
    let e = rle_enc_spec(s);
    lemma_rle_dec_enc(e, Seq::empty(), s, Seq::empty());
    assert(e + Seq::<char>::empty() =~= e);
    assert(Seq::<char>::empty() + s =~= s);
}

// ---------------------------------------------------------------------------------------------
// Opponent moves: one letter per move (`U`, `D`, `L`, `R`), run-length encoded; `-` when none.
// ---------------------------------------------------------------------------------------------

/// The letter of a move.
pub open spec fn move_char(d: Direction) -> char {
    match d {
        Direction::Up => 'U',
        Direction::Down => 'D',
        Direction::Left => 'L',
        Direction::Right => 'R',
    }
}

/// The move a letter stands for.
pub open spec fn dir_of_char(c: char) -> Option<Direction> {
    if c == 'U' {
        Some(Direction::Up)
    } else if c == 'D' {
        Some(Direction::Down)
    } else if c == 'L' {
        Some(Direction::Left)
    } else if c == 'R' {
        Some(Direction::Right)
    } else {
        None
    }
}

/// The encoding of a move list.
pub open spec fn encode_moves_spec(m: Seq<Direction>) -> Seq<char> {
    if m.len() == 0 { seq!['-'] } else { rle_enc_spec(m.map_values(|d: Direction| move_char(d))) }
}

/// The moves spelled by `s`, failing at the first letter that is not a move.
pub open spec fn moves_of(s: Seq<char>) -> Result<Seq<Direction>, FenErr>
    decreases s.len(),
{
    if s.len() == 0 {
        Ok(Seq::empty())
    } else {
        match dir_of_char(s[0]) {
            None => Err(FenErr::InvalidMove(s[0])),
            Some(d) => match moves_of(s.drop_first()) {
                Ok(rest) => Ok(seq![d] + rest),
                Err(e) => Err(e),
            },
        }
    }
}

/// The move list encoded by `raw`.
pub open spec fn decode_moves_spec(raw: Seq<char>) -> Result<Seq<Direction>, FenErr> {
    if raw == seq!['-'] {
        Ok(Seq::empty())
    } else {
        match rle_decode_spec(raw) {
            Ok(s) => moves_of(s),
            Err(e) => Err(e),
        }
    }
}

/// Encodes a move list.
pub fn encode_moves(moves: &[Direction]) -> (r: Vec<char>)
    ensures
        r@ == encode_moves_spec(moves@),
{
    if moves.len() == 0 {
        return vec!['-'];
    }
    let mut chars: Vec<char> = Vec::new();
    let mut i: usize = 0;
    while i < moves.len()
        invariant
            i <= moves@.len(),
            chars@ == moves@.subrange(0, i as int).map_values(|d: Direction| move_char(d)),
        decreases moves@.len() - i,
    {
        let c = match moves[i] {
            Direction::Up => 'U',
            Direction::Down => 'D',
            Direction::Left => 'L',
            Direction::Right => 'R',
        };
        chars.push(c);
        i += 1;
        assert(chars@ =~= moves@.subrange(0, i as int).map_values(|d: Direction| move_char(d)));
    }
    assert(moves@.subrange(0, i as int) =~= moves@);
    rle_encode(chars.as_slice())
}

/// Decodes a move list.
pub fn decode_moves(raw: &[char]) -> (r: Result<Vec<Direction>, SnakeFenError>)
    ensures
        agrees(r, decode_moves_spec(raw@), |v: Vec<Direction>| v@),
{
    let is_dash = chars_eq_str(raw, "-");
    proof {
        reveal_strlit("-");
        assert("-"@ =~= seq!['-']);
    }
    if is_dash {
        return Ok(Vec::new());
    }
    let letters = match rle_decode(raw) {
        Ok(l) => l,
        Err(e) => return Err(e),
    };
    let mut out: Vec<Direction> = Vec::new();
    let mut i: usize = 0;
    assert(letters@.skip(0) =~= letters@);
    while i < letters.len()
        invariant
            i <= letters@.len(),
            decode_moves_spec(raw@) == moves_of(letters@),
            moves_of(letters@) == match moves_of(letters@.skip(i as int)) {
                Ok(rest) => Ok::<Seq<Direction>, FenErr>(out@ + rest),
                Err(e) => Err(e),
            },
        decreases letters@.len() - i,
    {
        let ch = letters[i];
        proof {
            assert(letters@.skip(i as int)[0] == ch);
            assert(letters@.skip(i as int).drop_first() =~= letters@.skip(i + 1));
        }
        let d = if ch == 'U' {
            Direction::Up
        } else if ch == 'D' {
            Direction::Down
        } else if ch == 'L' {
            Direction::Left
        } else if ch == 'R' {
            Direction::Right
        } else {
            proof {
                assert(dir_of_char(ch) is None);
                assert(moves_of(letters@.skip(i as int)) == Err::<Seq<Direction>, FenErr>(FenErr::InvalidMove(ch)));
            }
            return Err(SnakeFenError::InvalidMove(ch));
        };
        let ghost before = out@;
        out.push(d);
        proof {
            match moves_of(letters@.skip(i + 1)) {
                Ok(rest) => {
                    assert(out@ + rest =~= before + (seq![d] + rest));
                },
                Err(e) => {},
            }
        }
        i += 1;
    }
    assert(letters@.skip(i as int) =~= Seq::<char>::empty());
    assert(out@ + Seq::<Direction>::empty() =~= out@);
    Ok(out)
}

/// Decoding the letters of a move list gives the moves back.
proof fn lemma_moves_of_letters(m: Seq<Direction>)
    ensures
        moves_of(m.map_values(|d: Direction| move_char(d))) == Ok::<Seq<Direction>, FenErr>(m),
    decreases m.len(),
{
    let s = m.map_values(|d: Direction| move_char(d));
    if m.len() > 0 {
        assert(s.drop_first() =~= m.drop_first().map_values(|d: Direction| move_char(d)));
        lemma_moves_of_letters(m.drop_first());
        assert(s[0] == move_char(m[0]));
        assert(dir_of_char(s[0]) == Some(m[0]));
        assert(seq![m[0]] + m.drop_first() =~= m);
        assert(moves_of(s) == Ok::<Seq<Direction>, FenErr>(seq![m[0]] + m.drop_first()));
    } else {
        assert(s.len() == 0);
        assert(m =~= Seq::<Direction>::empty());
    }
}

/// Decoding the encoding of a move list gives the list back.
pub proof fn lemma_moves_roundtrip(m: Seq<Direction>)
    requires
        m.len() <= usize::MAX,
    ensures
        decode_moves_spec(encode_moves_spec(m)) == Ok::<Seq<Direction>, FenErr>(m),
{
    if m.len() > 0 {
        let s = m.map_values(|d: Direction| move_char(d));
        assert forall|i: int| 0 <= i < s.len() implies !is_digit(#[trigger] s[i]) by {}
        lemma_rle_roundtrip(s);
        lemma_moves_of_letters(m);
        let e = rle_enc_spec(s);
        assert(encode_moves_spec(m) == e);
        if e == seq!['-'] {
            lemma_lead_run(s, s[0]);
            let n = lead_run(s, s[0]);
            if n > 1 {
                lemma_dec_string_digits(n);
                assert(e.len() >= 2);
            } else {
                assert(e[0] == s[0]);
                assert(s[0] == move_char(m[0]));
            }
        }
        assert(e != seq!['-']);
        assert(decode_moves_spec(e) == moves_of(s));
    } else {
        assert(m =~= Seq::<Direction>::empty());
    }
}

// ---------------------------------------------------------------------------------------------
// Bodies: `x,y` of the head, then `:` and the run-length encoded steps from each segment to the
// next (`U`, `D`, `L`, `R`, `S` for a stacked segment, `X` for any other gap); `-` when empty.
// ---------------------------------------------------------------------------------------------

/// The letter for the step from `p` to `q`.
pub open spec fn step_char(p: Point, q: Point) -> char {
    let dx = q.x - p.x;
    let dy = q.y - p.y;
    if dx == 1 && dy == 0 {
        'R'
    } else if dx == -1 && dy == 0 {
        'L'
    } else if dx == 0 && dy == 1 {
        'U'
    } else if dx == 0 && dy == -1 {
        'D'
    } else if dx == 0 && dy == 0 {
        'S'
    } else {
        'X'
    }
}

/// The step letters along a body.
pub open spec fn body_path(b: Seq<Point>) -> Seq<char> {
    Seq::new((b.len() - 1) as nat, |i: int| step_char(b[i], b[i + 1]))
}

/// The coordinate differences between consecutive segments fit in `i32`.
pub open spec fn body_diffs_fit(b: Seq<Point>) -> bool {
    forall|i: int| 0 <= i < b.len() - 1 ==> {
        &&& i32::MIN <= #[trigger] b[i + 1].x - b[i].x <= i32::MAX
        &&& i32::MIN <= b[i + 1].y - b[i].y <= i32::MAX
    }
}

/// The head coordinates of a body as written: `x,y`.
pub open spec fn head_text(p: Point) -> Seq<char> {
    signed_string(p.x as int) + seq![','] + signed_string(p.y as int)
}

/// The encoding of a body.
pub open spec fn encode_body_spec(b: Seq<Point>) -> Seq<char> {
    if b.len() == 0 {
        seq!['-']
    } else if b.len() == 1 {
        head_text(b[0])
    } else {
        head_text(b[0]) + seq![':'] + rle_enc_spec(body_path(b))
    }
}

/// The segments after `prev` reached by following `steps`.
pub open spec fn walk(prev: Point, steps: Seq<char>) -> Result<Seq<Point>, FenErr>
    decreases steps.len(),
{
    if steps.len() == 0 {
        Ok(Seq::empty())
    } else {
        let c = steps[0];
        let (nx, ny) = if c == 'U' {
            (prev.x as int, prev.y + 1)
        } else if c == 'D' {
            (prev.x as int, prev.y - 1)
        } else if c == 'L' {
            (prev.x - 1, prev.y as int)
        } else if c == 'R' {
            (prev.x + 1, prev.y as int)
        } else {
            (prev.x as int, prev.y as int)
        };
        if c != 'U' && c != 'D' && c != 'L' && c != 'R' && c != 'S' {
            Err(FenErr::InvalidPathStep(c))
        } else if !(i32::MIN <= nx <= i32::MAX && i32::MIN <= ny <= i32::MAX) {
            Err(FenErr::Overflow)
        } else {
            let next = Point { x: nx as i32, y: ny as i32 };
            match walk(next, steps.drop_first()) {
                Ok(rest) => Ok(seq![next] + rest),
                Err(e) => Err(e),
            }
        }
    }
}

/// The body encoded by `raw`.
pub open spec fn decode_body_spec(raw: Seq<char>) -> Result<Seq<Point>, FenErr> {
    if raw == seq!['-'] {
        Ok(Seq::empty())
    } else {
        let (head, path) = match split_once_spec(raw, ':') {
            Some((h, p)) => (h, p),
            None => (raw, Seq::empty()),
        };
        match split_once_spec(head, ',') {
            None => Err(FenErr::InvalidBody(raw)),
            Some((xr, yr)) => match i32_of(xr) {
                None => Err(FenErr::InvalidNumber("body_x"@, xr)),
                Some(x) => match i32_of(yr) {
                    None => Err(FenErr::InvalidNumber("body_y"@, yr)),
                    Some(y) => match rle_decode_spec(path) {
                        Err(e) => Err(e),
                        Ok(steps) => {
                            let h = Point { x: x as i32, y: y as i32 };
                            match walk(h, steps) {
                                Ok(rest) => Ok(seq![h] + rest),
                                Err(e) => Err(e),
                            }
                        },
                    },
                },
            },
        }
    }
}

/// Consecutive segments of `b` are one step apart or on the same cell.
pub open spec fn connected(b: Seq<Point>) -> bool {
    forall|i: int| 0 <= i < b.len() - 1 ==> #[trigger] step_char(b[i], b[i + 1]) != 'X'
}

/// Reading a signed number written by `signed_string` gives it back.
pub proof fn lemma_signed_roundtrip(v: int)
    ensures
        parse_signed_spec(signed_string(v)) == Some(v),
        signed_string(v).len() > 0,
        forall|i: int| 0 <= i < signed_string(v).len() ==>
            (is_digit(#[trigger] signed_string(v)[i]) || signed_string(v)[i] == '-'),
{
    if v < 0 {
        lemma_dec_string_digits((-v) as nat);
        let s = signed_string(v);
        assert(s.drop_first() =~= dec_string((-v) as nat));
        assert forall|i: int| 0 <= i < s.len() implies (is_digit(#[trigger] s[i]) || s[i] == '-') by {
            if i > 0 {
                assert(s[i] == dec_string((-v) as nat)[i - 1]);
            }
        }
    } else {
        lemma_dec_string_digits(v as nat);
    }
}

/// The first `c` at or after `k` is at `m` when `s[m] == c` and no `c` lies in `k..m`.
proof fn lemma_first_index_at(s: Seq<char>, c: char, k: int, m: int)
    requires
        0 <= k <= m < s.len(),
        s[m] == c,
        forall|j: int| k <= j < m ==> s[j] != c,
    ensures
        first_index_from(s, c, k) == m,
    decreases m - k,
{
    if k < m {
        lemma_first_index_at(s, c, k + 1, m);
    }
}

/// No `c` at or after `k` leaves the search at the end.
proof fn lemma_first_index_none(s: Seq<char>, c: char, k: int)
    requires
        0 <= k <= s.len(),
        forall|j: int| k <= j < s.len() ==> s[j] != c,
    ensures
        first_index_from(s, c, k) == s.len(),
    decreases s.len() - k,
{
    if k < s.len() {
        lemma_first_index_none(s, c, k + 1);
    }
}

/// Following the steps of a connected body from segment `k` gives the segments after it.
proof fn lemma_walk_path(b: Seq<Point>, k: int)
    requires
        connected(b),
        b.len() >= 2,
        0 <= k < b.len(),
    ensures
        walk(b[k], body_path(b).subrange(k, b.len() - 1)) == Ok::<Seq<Point>, FenErr>(b.subrange(k + 1, b.len() as int)),
    decreases b.len() - k,
{
    let path = body_path(b);
    let steps = path.subrange(k, b.len() - 1);
    if k == b.len() - 1 {
        assert(steps =~= Seq::<char>::empty());
        assert(b.subrange(k + 1, b.len() as int) =~= Seq::<Point>::empty());
    } else {
        lemma_walk_path(b, k + 1);
        assert(steps[0] == step_char(b[k], b[k + 1]));
        assert(step_char(b[k], b[k + 1]) != 'X');
        assert(steps.drop_first() =~= path.subrange(k + 1, b.len() - 1));
        assert(b.subrange(k + 1, b.len() as int) =~= seq![b[k + 1]] + b.subrange(k + 2, b.len() as int));
    }
}

/// Writing a connected body and reading it back gives the body.
pub proof fn lemma_body_roundtrip(b: Seq<Point>)
    requires
        connected(b),
        b.len() <= usize::MAX,
    ensures
        decode_body_spec(encode_body_spec(b)) == Ok::<Seq<Point>, FenErr>(b),
{
    if b.len() == 0 {
        assert(b =~= Seq::<Point>::empty());
        return;
    }
    let h = b[0];
    let sx = signed_string(h.x as int);
    let sy = signed_string(h.y as int);
    lemma_signed_roundtrip(h.x as int);
    lemma_signed_roundtrip(h.y as int);
    let ht = head_text(h);
    assert(ht == sx + seq![','] + sy);
    assert forall|j: int| 0 <= j < ht.len() implies ht[j] != ':' by {
        if j < sx.len() {
            assert(ht[j] == sx[j]);
        } else if j > sx.len() {
            assert(ht[j] == sy[j - sx.len() - 1]);
        }
    }
    lemma_first_index_at(ht, ',', 0, sx.len() as int);
    assert(ht.take(sx.len() as int) =~= sx);
    assert(ht.skip(sx.len() as int + 1) =~= sy);
    let raw = encode_body_spec(b);
    assert(raw != seq!['-']) by {
        assert(raw.len() > 1);
    }
    if b.len() == 1 {
        lemma_first_index_none(ht, ':', 0);
        assert(rle_decode_spec(Seq::<char>::empty()) == Ok::<Seq<char>, FenErr>(Seq::empty()));
        assert(seq![h] + Seq::<Point>::empty() =~= b);
    } else {
        let path = body_path(b);
        assert forall|i: int| 0 <= i < path.len() implies !is_digit(#[trigger] path[i]) by {
            assert(path[i] == step_char(b[i], b[i + 1]));
        }
        lemma_rle_roundtrip(path);
        let e = rle_enc_spec(path);
        assert(raw == ht + seq![':'] + e);
        assert forall|j: int| 0 <= j < ht.len() implies raw[j] != ':' by {
            assert(raw[j] == ht[j]);
        }
        lemma_first_index_at(raw, ':', 0, ht.len() as int);
        assert(raw.take(ht.len() as int) =~= ht);
        assert(raw.skip(ht.len() as int + 1) =~= e);
        lemma_walk_path(b, 0);
        assert(path.subrange(0, b.len() - 1) =~= path);
        assert(seq![h] + b.subrange(1, b.len() as int) =~= b);
    }
}

/// The first step of `b` from index `i` on that is not a unit step or a stay, or the last index.
pub open spec fn first_bad_step(b: Seq<Point>, i: int) -> int
    decreases b.len() - i,
{
    if i >= b.len() - 1 || i < 0 {
        i
    } else if step_char(b[i], b[i + 1]) == 'X' {
        i
    } else {
        first_bad_step(b, i + 1)
    }
}

/// A bad step at or after `i` makes `first_bad_step` find the first one.
proof fn lemma_first_bad_step(b: Seq<Point>, i: int, j: int)
    requires
        0 <= i <= j < b.len() - 1,
        step_char(b[j], b[j + 1]) == 'X',
        forall|m: int| 0 <= m < i ==> #[trigger] step_char(b[m], b[m + 1]) != 'X',
    ensures
        0 <= first_bad_step(b, i) <= j,
        step_char(b[first_bad_step(b, i)], b[first_bad_step(b, i) + 1]) == 'X',
        forall|m: int| 0 <= m < first_bad_step(b, i) ==> #[trigger] step_char(b[m], b[m + 1]) != 'X',
    decreases b.len() - i,
{
    if step_char(b[i], b[i + 1]) != 'X' {
        lemma_first_bad_step(b, i + 1, j);
    }
}

/// Walking the written path from segment `k` stops at the first bad step with its `X`.
proof fn lemma_walk_bad_path(b: Seq<Point>, k: int, bad: int)
    requires
        b.len() >= 2,
        0 <= k <= bad < b.len() - 1,
        step_char(b[bad], b[bad + 1]) == 'X',
        forall|m: int| 0 <= m < bad ==> #[trigger] step_char(b[m], b[m + 1]) != 'X',
    ensures
        walk(b[k], body_path(b).subrange(k, b.len() - 1)) == Err::<Seq<Point>, FenErr>(FenErr::InvalidPathStep('X')),
    decreases bad - k,
{
    let path = body_path(b);
    let steps = path.subrange(k, b.len() - 1);
    assert(steps[0] == step_char(b[k], b[k + 1]));
    if k < bad {
        lemma_walk_bad_path(b, k + 1, bad);
        assert(step_char(b[k], b[k + 1]) != 'X');
        assert(steps.drop_first() =~= path.subrange(k + 1, b.len() - 1));
    }
}

/// Writing a body with a step that is neither a unit step nor a stay and reading it back fails at
/// that step: the path holds an `X`, which is not a step.
pub proof fn lemma_body_bad_step(b: Seq<Point>)
    requires
        !connected(b),
        b.len() <= usize::MAX,
    ensures
        decode_body_spec(encode_body_spec(b)) == Err::<Seq<Point>, FenErr>(FenErr::InvalidPathStep('X')),
{
    let j = choose|j: int| 0 <= j < b.len() - 1 && #[trigger] step_char(b[j], b[j + 1]) == 'X';
    lemma_first_bad_step(b, 0, j);
    let bad = first_bad_step(b, 0);
    let h = b[0];
    let sx = signed_string(h.x as int);
    let sy = signed_string(h.y as int);
    lemma_signed_roundtrip(h.x as int);
    lemma_signed_roundtrip(h.y as int);
    let ht = head_text(h);
    assert(ht == sx + seq![','] + sy);
    assert forall|i: int| 0 <= i < ht.len() implies ht[i] != ':' by {
        if i < sx.len() {
            assert(ht[i] == sx[i]);
        } else if i > sx.len() {
            assert(ht[i] == sy[i - sx.len() - 1]);
        }
    }
    lemma_first_index_at(ht, ',', 0, sx.len() as int);
    assert(ht.take(sx.len() as int) =~= sx);
    assert(ht.skip(sx.len() as int + 1) =~= sy);
    let raw = encode_body_spec(b);
    let path = body_path(b);
    assert forall|i: int| 0 <= i < path.len() implies !is_digit(#[trigger] path[i]) by {
        assert(path[i] == step_char(b[i], b[i + 1]));
    }
    lemma_rle_roundtrip(path);
    let e = rle_enc_spec(path);
    assert(raw == ht + seq![':'] + e);
    assert(raw != seq!['-']) by {
        assert(raw.len() > 1);
    }
    assert forall|i: int| 0 <= i < ht.len() implies raw[i] != ':' by {
        assert(raw[i] == ht[i]);
    }
    lemma_first_index_at(raw, ':', 0, ht.len() as int);
    assert(raw.take(ht.len() as int) =~= ht);
    assert(raw.skip(ht.len() as int + 1) =~= e);
    lemma_walk_bad_path(b, 0, bad);
    assert(path.subrange(0, b.len() - 1) =~= path);
}

/// Encodes a body.
pub fn encode_body(body: &[Point]) -> (r: Vec<char>)
    requires
        body_diffs_fit(body@),
    ensures
        r@ == encode_body_spec(body@),
{
    if body.len() == 0 {
        return vec!['-'];
    }
    let head = body[0];
    let mut path: Vec<char> = Vec::new();
    let mut i: usize = 0;
    let last = body.len() - 1;
    while i < last
        invariant
            body@.len() >= 1,
            last == body@.len() - 1,
            i <= last,
            body_diffs_fit(body@),
            path@ == body_path(body@).subrange(0, i as int),
        decreases body@.len() - i,
    {
        let prev = body[i];
        let next = body[i + 1];
        assert(i32::MIN <= body@[i + 1].x - body@[i as int].x <= i32::MAX);
        let dx = next.x - prev.x;
        let dy = next.y - prev.y;
        let step = if dx == 1 && dy == 0 {
            'R'
        } else if dx == -1 && dy == 0 {
            'L'
        } else if dx == 0 && dy == 1 {
            'U'
        } else if dx == 0 && dy == -1 {
            'D'
        } else if dx == 0 && dy == 0 {
            'S'
        } else {
            'X'
        };
        path.push(step);
        i += 1;
        assert(path@ =~= body_path(body@).subrange(0, i as int));
    }
    assert(path@ =~= body_path(body@));
    let mut out: Vec<char> = Vec::new();
    push_signed(&mut out, head.x as i64);
    out.push(',');
    push_signed(&mut out, head.y as i64);
    if path.len() == 0 {
        assert(out@ =~= encode_body_spec(body@));
        return out;
    }
    out.push(':');
    let enc = rle_encode(path.as_slice());
    let mut k: usize = 0;
    let ghost before = out@;
    while k < enc.len()
        invariant
            k <= enc@.len(),
            out@ == before + enc@.subrange(0, k as int),
        decreases enc@.len() - k,
    {
        out.push(enc[k]);
        k += 1;
        assert(out@ =~= before + enc@.subrange(0, k as int));
    }
    assert(enc@.subrange(0, k as int) =~= enc@);
    assert(out@ =~= encode_body_spec(body@));
    out
}

/// Decodes a body, or `Err(None)` when a segment leaves the range of `i32`.
fn decode_body_checked(raw: &[char]) -> (r: Result<Vec<Point>, Option<SnakeFenError>>)
    ensures
        checked_agrees(r, decode_body_spec(raw@), |v: Vec<Point>| v@),
{
    let is_dash = chars_eq_str(raw, "-");
    proof {
        reveal_strlit("-");
        assert("-"@ =~= seq!['-']);
    }
    if is_dash {
        return Ok(Vec::new());
    }
    let sp = split_once_chars(raw, ':');
    let (head_raw, path_raw) = match sp {
        Some((h, p)) => (h, p),
        None => (crate::text::sub_chars(raw, 0, raw.len()), Vec::new()),
    };
    proof {
        assert(raw@.subrange(0, raw@.len() as int) =~= raw@);
        let (h, p) = match split_once_spec(raw@, ':') {
            Some((h, p)) => (h, p),
            None => (raw@, Seq::<char>::empty()),
        };
        assert(head_raw@ == h);
        assert(path_raw@ =~= p);
    }
    let (x_raw, y_raw) = match split_once_chars(head_raw.as_slice(), ',') {
        Some(xy) => xy,
        None => return Err(Some(SnakeFenError::InvalidBody(string_from_chars(raw)))),
    };
    let x = match number_i32("body_x", x_raw.as_slice()) {
        Ok(v) => v,
        Err(e) => return Err(Some(e)),
    };
    let y = match number_i32("body_y", y_raw.as_slice()) {
        Ok(v) => v,
        Err(e) => return Err(Some(e)),
    };
    let steps = match rle_decode(path_raw.as_slice()) {
        Ok(s) => s,
        Err(e) => return Err(Some(e)),
    };
    let head = Point { x, y };
    let mut body: Vec<Point> = vec![head];
    let mut prev = head;
    let mut i: usize = 0;
    let ghost whole = walk(head, steps@);
    assert(steps@.skip(0) =~= steps@);
    assert(body@ =~= seq![head]);
    proof {
        match walk(head, steps@) {
            Ok(rest) => {
                assert((seq![head] + rest).drop_first() =~= rest);
            },
            Err(e) => {},
        }
    }
    while i < steps.len()
        invariant
            i <= steps@.len(),
            whole == walk(head, steps@),
            decode_body_spec(raw@) == match whole {
                Ok(rest) => Ok::<Seq<Point>, FenErr>(seq![head] + rest),
                Err(e) => Err(e),
            },
            body@.len() >= 1,
            body@[0] == head,
            prev == body@.last(),
            match walk(prev, steps@.skip(i as int)) {
                Ok(rest) => whole == Ok::<Seq<Point>, FenErr>((body@ + rest).drop_first()),
                Err(e) => whole == Err::<Seq<Point>, FenErr>(e),
            },
        decreases steps@.len() - i,
    {
        let ch = steps[i];
        proof {
            assert(steps@.skip(i as int)[0] == ch);
            assert(steps@.skip(i as int).drop_first() =~= steps@.skip(i + 1));
        }
        if ch != 'U' && ch != 'D' && ch != 'L' && ch != 'R' && ch != 'S' {
            proof {
                assert(walk(prev, steps@.skip(i as int)) == Err::<Seq<Point>, FenErr>(FenErr::InvalidPathStep(ch)));
            }
            return Err(Some(SnakeFenError::InvalidPathStep(ch)));
        }
        let nx: i64 = if ch == 'L' { prev.x as i64 - 1 } else if ch == 'R' { prev.x as i64 + 1 } else { prev.x as i64 };
        let ny: i64 = if ch == 'D' { prev.y as i64 - 1 } else if ch == 'U' { prev.y as i64 + 1 } else { prev.y as i64 };
        if nx < i32::MIN as i64 || nx > i32::MAX as i64 || ny < i32::MIN as i64 || ny > i32::MAX as i64 {
            proof {
                assert(walk(prev, steps@.skip(i as int)) == Err::<Seq<Point>, FenErr>(FenErr::Overflow));
            }
            return Err(None);
        }
        let next = Point { x: nx as i32, y: ny as i32 };
        let ghost before = body@;
        body.push(next);
        proof {
            match walk(next, steps@.skip(i + 1)) {
                Ok(rest) => {
                    assert((body@ + rest).drop_first() =~= (before + (seq![next] + rest)).drop_first());
                },
                Err(e) => {},
            }
        }
        prev = next;
        i += 1;
    }
    proof {
        assert(steps@.skip(i as int) =~= Seq::<char>::empty());
        assert((body@ + Seq::<Point>::empty()).drop_first() =~= body@.drop_first());
        assert(body@ =~= seq![head] + body@.drop_first());
    }
    Ok(body)
}

/// Decodes a body.
pub fn decode_body(raw: &[char]) -> (r: Result<Vec<Point>, SnakeFenError>)
    requires
        decode_body_spec(raw@) != Err::<Seq<Point>, FenErr>(FenErr::Overflow),
    ensures
        agrees(r, decode_body_spec(raw@), |v: Vec<Point>| v@),
{
    match decode_body_checked(raw) {
        Ok(v) => Ok(v),
        Err(Some(e)) => Err(e),
        Err(None) => {
            assert(false);
            Err(SnakeFenError::InvalidFoodGrid)
        },
    }
}

// ---------------------------------------------------------------------------------------------
// Food: one row per line of the board from the top (`y = height - 1`) down, rows joined by `/`;
// in a row, `f` is a food cell and a number counts empty cells; `-` when there is no food.
// ---------------------------------------------------------------------------------------------

/// Whether some food lies at `(x, y)`.
pub open spec fn food_at(foods: Seq<Point>, x: int, y: int) -> bool {
    exists|k: int| 0 <= k < foods.len() && foods[k].x == x && foods[k].y == y
}

/// The food flags of row `y`, left to right.
pub open spec fn food_row(foods: Seq<Point>, w: int, y: int) -> Seq<bool> {
    Seq::new(if w < 0 { 0 } else { w as nat }, |x: int| food_at(foods, x, y))
}

/// The text of a row from the remaining cells, with `pending` empty cells not yet written.
pub open spec fn row_text(cells: Seq<bool>, pending: nat) -> Seq<char>
    decreases cells.len(),
{
    let count = if pending > 0 { dec_string(pending) } else { Seq::empty() };
    if cells.len() == 0 {
        count
    } else if cells[0] {
        count + seq!['f'] + row_text(cells.drop_first(), 0)
    } else {
        row_text(cells.drop_first(), pending + 1)
    }
}

/// Pieces joined with `sep` between them.
pub open spec fn joined(parts: Seq<Seq<char>>, sep: char) -> Seq<char>
    decreases parts.len(),
{
    if parts.len() == 0 {
        Seq::empty()
    } else if parts.len() == 1 {
        parts[0]
    } else {
        joined(parts.drop_last(), sep) + seq![sep] + parts.last()
    }
}

/// The row texts of a board, top row first.
pub open spec fn food_rows(foods: Seq<Point>, w: int, h: int) -> Seq<Seq<char>> {
    Seq::new(if h < 0 { 0 } else { h as nat }, |r: int| row_text(food_row(foods, w, h - 1 - r), 0))
}

/// The encoding of the food on a `w` by `h` board. Food off the board is left out.
pub open spec fn encode_foods_spec(foods: Seq<Point>, w: int, h: int) -> Seq<char> {
    if foods.len() == 0 { seq!['-'] } else { joined(food_rows(foods, w, h), '/') }
}

/// The text of a row from cell `from` on, with `pending` empty cells not yet written.
fn emit_row(out: &mut Vec<char>, cells: &Vec<bool>, from: usize, pending: usize)
    requires
        from <= cells@.len(),
        pending + (cells@.len() - from) <= usize::MAX,
    ensures
        final(out)@ == old(out)@ + row_text(cells@.skip(from as int), pending as nat),
    decreases cells@.len() - from,
{
    let ghost rest = cells@.skip(from as int);
    if from == cells.len() {
        if pending > 0 {
            push_dec(out, pending as u128);
        }
        assert(out@ =~= old(out)@ + row_text(rest, pending as nat));
    } else {
        proof {
            assert(rest[0] == cells@[from as int]);
            assert(rest.drop_first() =~= cells@.skip(from + 1));
        }
        if cells[from] {
            if pending > 0 {
                push_dec(out, pending as u128);
            }
            out.push('f');
            let ghost mid = out@;
            emit_row(out, cells, from + 1, 0);
            assert(out@ =~= old(out)@ + row_text(rest, pending as nat));
        } else {
            emit_row(out, cells, from + 1, pending + 1);
        }
    }
}

/// Encodes the food of a `width` by `height` board.
pub fn encode_foods(foods: &[Point], width: i32, height: i32) -> (r: Vec<char>)
    requires
        foods@.len() > 0 ==> 0 <= width * height <= i32::MAX,
    ensures
        r@ == encode_foods_spec(foods@, width as int, height as int),
{
    if foods.len() == 0 {
        return vec!['-'];
    }
    let w: usize = if width > 0 && height > 0 { width as usize } else { 0 };
    let h: usize = if width > 0 && height > 0 { height as usize } else { 0 };
    proof {
        if width > 0 && height > 0 {
            assert(w * h <= i32::MAX) by (nonlinear_arith) requires w == width, h == height, width * height <= i32::MAX;
        }
    }
    let size = w * h;
    let mut grid: Vec<bool> = Vec::new();
    let mut i: usize = 0;
    while i < size
        invariant
            i <= size,
            grid@ == Seq::new(i as nat, |k: int| false),
        decreases size - i,
    {
        grid.push(false);
        i += 1;
        assert(grid@ =~= Seq::new(i as nat, |k: int| false));
    }
    let mut k: usize = 0;
    while k < foods.len()
        invariant
            w == (if width > 0 && height > 0 { width as int } else { 0 }),
            h == (if width > 0 && height > 0 { height as int } else { 0 }),
            size == w * h,
            size <= i32::MAX,
            k <= foods@.len(),
            grid@.len() == size,
            forall|c: int| 0 <= c < size ==> #[trigger] grid@[c] == exists|j: int| 0 <= j < k
                && 0 <= foods@[j].x < w && 0 <= foods@[j].y < h && c == foods@[j].y * w + foods@[j].x,
        decreases foods@.len() - k,
    {
        let f = foods[k];
        if f.x >= 0 && (f.x as usize) < w && f.y >= 0 && (f.y as usize) < h {
            proof {
                assert(f.y * w + f.x < size) by (nonlinear_arith) requires 0 <= f.x < w, 0 <= f.y < h, size == w * h;
                assert(f.y * w + f.x >= 0) by (nonlinear_arith) requires 0 <= f.x, 0 <= f.y, w >= 0;
            }
            let c = (f.y as usize) * w + (f.x as usize);
            grid.set(c, true);
        }
        k += 1;
    }
    let mut out: Vec<char> = Vec::new();
    let mut r: usize = 0;
    let ghost rows = food_rows(foods@, width as int, height as int);
    proof {
        assert(rows.len() == if height < 0 { 0 } else { height as nat });
    }
    let total_rows: usize = if height > 0 { height as usize } else { 0 };
    while r < total_rows
        invariant
            rows == food_rows(foods@, width as int, height as int),
            total_rows == rows.len(),
            r <= total_rows,
            out@ == joined(rows.take(r as int), '/'),
            w == (if width > 0 && height > 0 { width as int } else { 0 }),
            h == (if width > 0 && height > 0 { height as int } else { 0 }),
            size == w * h,
            size <= i32::MAX,
            grid@.len() == size,
            forall|c: int| 0 <= c < size ==> #[trigger] grid@[c] == exists|j: int| 0 <= j < foods@.len()
                && 0 <= foods@[j].x < w && 0 <= foods@[j].y < h && c == foods@[j].y * w + foods@[j].x,
        decreases total_rows - r,
    {
        let y = total_rows - 1 - r;
        let mut cells: Vec<bool> = Vec::new();
        let mut x: usize = 0;
        let row_len: usize = if width > 0 { width as usize } else { 0 };
        while x < row_len
            invariant
                x <= row_len,
                row_len == (if width < 0 { 0 } else { width as nat }),
                w == (if width > 0 && height > 0 { width as int } else { 0 }),
                h == (if width > 0 && height > 0 { height as int } else { 0 }),
                total_rows == (if height > 0 { height as int } else { 0 }),
                y < total_rows,
                size == w * h,
                size <= i32::MAX,
                grid@.len() == size,
                forall|c: int| 0 <= c < size ==> #[trigger] grid@[c] == exists|j: int| 0 <= j < foods@.len()
                    && 0 <= foods@[j].x < w && 0 <= foods@[j].y < h && c == foods@[j].y * w + foods@[j].x,
                cells@ == food_row(foods@, width as int, y as int).take(x as int),
            decreases row_len - x,
        {
            proof {
                assert(y * w + x < size) by (nonlinear_arith) requires x < w, y < h, size == w * h;
            }
            let c = y * w + x;
            let v = grid[c];
            proof {
                if v {
                    let j = choose|j: int| 0 <= j < foods@.len() && 0 <= foods@[j].x < w && 0 <= foods@[j].y < h
                        && c == foods@[j].y * w + foods@[j].x;
                    crate::bitboard::lemma_row_col(w as int, y as int, x as int);
                    crate::bitboard::lemma_row_col(w as int, foods@[j].y as int, foods@[j].x as int);
                    assert(food_at(foods@, x as int, y as int));
                } else {
                    if food_at(foods@, x as int, y as int) {
                        let j = choose|j: int| 0 <= j < foods@.len() && foods@[j].x == x && foods@[j].y == y;
                        assert(0 <= foods@[j].x < w && 0 <= foods@[j].y < h && c == foods@[j].y * w + foods@[j].x);
                    }
                }
                assert(v == food_row(foods@, width as int, y as int)[x as int]);
            }
            cells.push(v);
            x += 1;
            assert(cells@ =~= food_row(foods@, width as int, y as int).take(x as int));
        }
        assert(cells@ =~= food_row(foods@, width as int, y as int));
        let ghost before = out@;
        if r > 0 {
            out.push('/');
        }
        emit_row(&mut out, &cells, 0, 0);
        proof {
            assert(cells@.skip(0) =~= cells@);
            assert(rows[r as int] == row_text(cells@, 0));
            assert(rows.take(r + 1).drop_last() =~= rows.take(r as int));
            if r == 0 {
                assert(out@ =~= joined(rows.take(r + 1), '/'));
            } else {
                assert(out@ =~= joined(rows.take(r + 1), '/'));
            }
        }
        r += 1;
    }
    assert(rows.take(r as int) =~= rows);
    out
}

/// The column after the pending digits of a row: `x` when there are none, else `x` plus their
/// value, which must be a positive number.
pub open spec fn skip_digits(x: int, digits: Seq<char>) -> Result<int, FenErr> {
    if digits.len() == 0 {
        Ok(x)
    } else {
        match i32_of(digits) {
            None => Err(FenErr::InvalidNumber("food_skip"@, digits)),
            Some(skip) => if skip <= 0 {
                Err(FenErr::InvalidFoodGrid)
            } else if x + skip > i32::MAX {
                Err(FenErr::Overflow)
            } else {
                Ok(x + skip)
            },
        }
    }
}

/// The food of the rest of a row at height `y`, from column `x` with `digits` pending, appended
/// to `acc`. The row must end exactly at the right edge.
pub open spec fn food_row_from(row: Seq<char>, w: int, y: int, x: int, digits: Seq<char>, acc: Seq<Point>) -> Result<Seq<Point>, FenErr>
    decreases row.len(),
{
    if row.len() == 0 {
        match skip_digits(x, digits) {
            Err(e) => Err(e),
            Ok(x2) => if x2 != w { Err(FenErr::InvalidFoodGrid) } else { Ok(acc) },
        }
    } else if is_digit(row[0]) {
        food_row_from(row.drop_first(), w, y, x, digits.push(row[0]), acc)
    } else {
        match skip_digits(x, digits) {
            Err(e) => Err(e),
            Ok(x2) => if row[0] != 'f' || x2 >= w {
                Err(FenErr::InvalidFoodGrid)
            } else {
                food_row_from(row.drop_first(), w, y, x2 + 1, Seq::empty(), acc.push(Point { x: x2 as i32, y: y as i32 }))
            },
        }
    }
}

/// The food of rows `r..` of a `w` by `h` board, appended to `acc`.
pub open spec fn food_rows_from(rows: Seq<Seq<char>>, w: int, h: int, r: int, acc: Seq<Point>) -> Result<Seq<Point>, FenErr>
    decreases rows.len() - r,
{
    if r < 0 || r >= rows.len() {
        Ok(acc)
    } else {
        match food_row_from(rows[r], w, h - 1 - r, 0, Seq::empty(), acc) {
            Err(e) => Err(e),
            Ok(acc2) => food_rows_from(rows, w, h, r + 1, acc2),
        }
    }
}

/// The food encoded by `raw` for a `w` by `h` board: exactly `h` rows, each `w` cells wide.
pub open spec fn decode_foods_spec(raw: Seq<char>, w: int, h: int) -> Result<Seq<Point>, FenErr> {
    if raw == seq!['-'] {
        Ok(Seq::empty())
    } else {
        let rows = split_spec(raw, '/');
        if rows.len() != (h as usize) as nat {
            Err(FenErr::InvalidFoodGrid)
        } else {
            food_rows_from(rows, w, h, 0, Seq::empty())
        }
    }
}

/// The food of a row's cells from column `x0`, left to right.
pub open spec fn row_foods(cells: Seq<bool>, x0: int, y: int) -> Seq<Point>
    decreases cells.len(),
{
    if cells.len() == 0 {
        Seq::empty()
    } else {
        let rest = row_foods(cells.drop_first(), x0 + 1, y);
        if cells[0] { seq![Point { x: x0 as i32, y: y as i32 }] + rest } else { rest }
    }
}

/// The food on rows `r..h` of a `w` by `h` board (row `r` being `h - 1 - r` from the bottom):
/// one entry per food cell, top row first, left to right.
pub open spec fn board_foods_from(foods: Seq<Point>, w: int, h: int, r: int) -> Seq<Point>
    decreases h - r,
{
    if r < 0 || r >= h {
        Seq::empty()
    } else {
        row_foods(food_row(foods, w, h - 1 - r), 0, h - 1 - r) + board_foods_from(foods, w, h, r + 1)
    }
}

/// The food of a board as the encoding keeps it: one entry per food cell on the board, top row
/// first, left to right.
pub open spec fn board_foods(foods: Seq<Point>, w: int, h: int) -> Seq<Point> {
    if foods.len() == 0 { Seq::empty() } else { board_foods_from(foods, w, h, 0) }
}

/// The characters of a row's text are digits and `f`.
proof fn lemma_row_text_chars(cells: Seq<bool>, pending: nat)
    ensures
        forall|i: int| 0 <= i < row_text(cells, pending).len() ==>
            (is_digit(#[trigger] row_text(cells, pending)[i]) || row_text(cells, pending)[i] == 'f'),
    decreases cells.len(),
{
    let count = if pending > 0 { dec_string(pending) } else { Seq::empty() };
    if pending > 0 {
        lemma_dec_string_digits(pending);
    }
    let t = row_text(cells, pending);
    if cells.len() == 0 {
        assert(t == count);
        assert forall|i: int| 0 <= i < t.len() implies (is_digit(#[trigger] t[i]) || t[i] == 'f') by {
            assert(t[i] == count[i]);
        }
    } else if cells[0] {
        lemma_row_text_chars(cells.drop_first(), 0);
        let r = row_text(cells.drop_first(), 0);
        assert forall|i: int| 0 <= i < t.len() implies (is_digit(#[trigger] t[i]) || t[i] == 'f') by {
            if i < count.len() {
                assert(t[i] == count[i]);
            } else if i > count.len() {
                assert(t[i] == r[i - count.len() - 1]);
            }
        }
    } else {
        lemma_row_text_chars(cells.drop_first(), pending + 1);
        assert(t == row_text(cells.drop_first(), pending + 1));
    }
}

/// Digits read one by one join the pending count.
proof fn lemma_row_digits(d: Seq<char>, rest: Seq<char>, w: int, y: int, x: int, digits: Seq<char>, acc: Seq<Point>)
    requires
        all_digits(d),
    ensures
        food_row_from(d + rest, w, y, x, digits, acc) == food_row_from(rest, w, y, x, digits + d, acc),
    decreases d.len(),
{
    if d.len() == 0 {
        assert(d + rest =~= rest);
        assert(digits + d =~= digits);
    } else {
        assert((d + rest).drop_first() =~= d.drop_first() + rest);
        assert(all_digits(d.drop_first())) by {
            assert forall|i: int| 0 <= i < d.drop_first().len() implies is_digit(#[trigger] d.drop_first()[i]) by {
                assert(d.drop_first()[i] == d[i + 1]);
            }
        }
        lemma_row_digits(d.drop_first(), rest, w, y, x, digits.push(d[0]), acc);
        assert(digits.push(d[0]) + d.drop_first() =~= digits + d);
    }
}

/// A written count of empty cells is read back as that many columns.
proof fn lemma_skip_count(x: int, p: nat)
    requires
        0 <= x,
        x + p <= i32::MAX,
    ensures
        skip_digits(x, if p > 0 { dec_string(p) } else { Seq::empty() }) == Ok::<int, FenErr>(x + p),
{
    if p > 0 {
        lemma_signed_roundtrip(p as int);
        lemma_dec_string_digits(p);
    }
}

/// Reading a row's text from column `x` with `p` empty cells pending gives its food.
proof fn lemma_row_roundtrip(cells: Seq<bool>, p: nat, w: int, y: int, x: int, acc: Seq<Point>)
    requires
        0 <= x,
        w == x + p + cells.len(),
        w <= i32::MAX,
    ensures
        food_row_from(row_text(cells, p), w, y, x, Seq::empty(), acc) == Ok::<Seq<Point>, FenErr>(acc + row_foods(cells, x + p, y)),
    decreases cells.len(),
{
    let count: Seq<char> = if p > 0 { dec_string(p) } else { Seq::empty() };
    if p > 0 {
        lemma_dec_string_digits(p);
    }
    assert(all_digits(count));
    lemma_skip_count(x, p);
    assert(Seq::<char>::empty() + count =~= count);
    if cells.len() == 0 {
        assert(row_text(cells, p) == count);
        assert(count == count + Seq::<char>::empty());
        lemma_row_digits(count, Seq::empty(), w, y, x, Seq::empty(), acc);
        assert(acc + row_foods(cells, x + p, y) =~= acc);
    } else if cells[0] {
        let rest_text = row_text(cells.drop_first(), 0);
        assert(row_text(cells, p) == count + (seq!['f'] + rest_text));
        assert(count + seq!['f'] + rest_text == count + (seq!['f'] + rest_text));
        lemma_row_digits(count, seq!['f'] + rest_text, w, y, x, Seq::empty(), acc);
        let pt = Point { x: (x + p) as i32, y: y as i32 };
        assert((seq!['f'] + rest_text).drop_first() =~= rest_text);
        lemma_row_roundtrip(cells.drop_first(), 0, w, y, x + p + 1, acc.push(pt));
        assert(acc.push(pt) + row_foods(cells.drop_first(), x + p + 1, y) =~= acc + row_foods(cells, x + p, y));
    } else {
        lemma_row_roundtrip(cells.drop_first(), p + 1, w, y, x, acc);
    }
}

/// Splitting at `sep` when the last piece holds no `sep` extends the last piece.
proof fn lemma_split_tail(a: Seq<char>, b: Seq<char>, sep: char)
    requires
        forall|i: int| 0 <= i < b.len() ==> b[i] != sep,
    ensures
        ({
            let p = crate::text::split_spec(a, sep);
            crate::text::split_spec(a + b, sep) == p.update(p.len() - 1, p.last() + b)
        }),
    decreases b.len(),
{
    crate::text::lemma_split_nonempty(a, sep);
    let p = split_spec(a, sep);
    if b.len() == 0 {
        assert(a + b =~= a);
        assert(p.last() + b =~= p.last());
        assert(p.update(p.len() - 1, p.last() + b) =~= p);
    } else {
        lemma_split_tail(a, b.drop_last(), sep);
        assert((a + b).drop_last() =~= a + b.drop_last());
        assert((a + b).last() == b.last());
        assert(p.last() + b.drop_last() + seq![b.last()] =~= p.last() + b);
        let q = p.update(p.len() - 1, p.last() + b.drop_last());
        assert(q.len() == p.len());
        assert(q.last() == p.last() + b.drop_last());
        assert(q.last().push(b.last()) =~= p.last() + b);
        assert(q.update(q.len() - 1, q.last().push(b.last())) =~= p.update(p.len() - 1, p.last() + b));
    }
}

/// Splitting pieces joined with `sep` gives them back when no piece holds a `sep`.
proof fn lemma_split_joined(rows: Seq<Seq<char>>, sep: char)
    requires
        rows.len() >= 1,
        forall|k: int, i: int| 0 <= k < rows.len() && 0 <= i < rows[k].len() ==> #[trigger] rows[k][i] != sep,
    ensures
        split_spec(joined(rows, sep), sep) == rows,
    decreases rows.len(),
{
    if rows.len() == 1 {
        lemma_split_tail(Seq::empty(), rows[0], sep);
        assert(Seq::<char>::empty() + rows[0] =~= rows[0]);
        assert(split_spec(Seq::<char>::empty(), sep) =~= seq![Seq::<char>::empty()]);
        assert(Seq::<char>::empty() + rows[0] =~= rows[0]);
        assert(seq![Seq::<char>::empty()].update(0, Seq::<char>::empty() + rows[0]) =~= rows);
    } else {
        let front = rows.drop_last();
        lemma_split_joined(front, sep);
        let jf = joined(front, sep);
        assert(joined(rows, sep) == jf + seq![sep] + rows.last());
        lemma_split_tail(jf + seq![sep], rows.last(), sep);
        assert((jf + seq![sep]).drop_last() =~= jf);
        let p = split_spec(jf + seq![sep], sep);
        assert(p == front.push(Seq::empty()));
        assert(Seq::<char>::empty() + rows.last() =~= rows.last());
        assert(p.update(p.len() - 1, p.last() + rows.last()) =~= rows);
    }
}

/// Reading rows `r..` of the written rows gives the food of those rows.
proof fn lemma_rows_roundtrip(foods: Seq<Point>, w: int, h: int, r: int, acc: Seq<Point>)
    requires
        0 <= r <= h,
        0 <= w <= i32::MAX,
    ensures
        food_rows_from(food_rows(foods, w, h), w, h, r, acc) == Ok::<Seq<Point>, FenErr>(acc + board_foods_from(foods, w, h, r)),
    decreases h - r,
{
    let rows = food_rows(foods, w, h);
    if r == h {
        assert(acc + board_foods_from(foods, w, h, r) =~= acc);
    } else {
        let cells = food_row(foods, w, h - 1 - r);
        assert(rows[r] == row_text(cells, 0));
        lemma_row_roundtrip(cells, 0, w, h - 1 - r, 0, acc);
        let acc2 = acc + row_foods(cells, 0, h - 1 - r);
        lemma_rows_roundtrip(foods, w, h, r + 1, acc2);
        assert(acc2 + board_foods_from(foods, w, h, r + 1) =~= acc + board_foods_from(foods, w, h, r));
    }
}

/// Writing the food of a board and reading it back gives the food on the board, one entry per
/// food cell, top row first and left to right (food off the board is dropped).
pub proof fn lemma_foods_roundtrip(foods: Seq<Point>, w: int, h: int)
    requires
        0 <= w <= i32::MAX,
        0 < h <= i32::MAX,
        h <= usize::MAX,
    ensures
        decode_foods_spec(encode_foods_spec(foods, w, h), w, h) == Ok::<Seq<Point>, FenErr>(board_foods(foods, w, h)),
{
    if foods.len() > 0 {
        let rows = food_rows(foods, w, h);
        assert forall|k: int, i: int| 0 <= k < rows.len() && 0 <= i < rows[k].len() implies #[trigger] rows[k][i] != '/' by {
            lemma_row_text_chars(food_row(foods, w, h - 1 - k), 0);
            assert(rows[k] == row_text(food_row(foods, w, h - 1 - k), 0));
        }
        lemma_split_joined(rows, '/');
        let raw = joined(rows, '/');
        if raw == seq!['-'] {
            assert(split_spec(raw, '/') =~= seq![raw]) by {
                assert(raw.drop_last() =~= Seq::<char>::empty());
            }
            assert(rows[0] == raw);
            lemma_row_text_chars(food_row(foods, w, h - 1), 0);
            assert(rows[0][0] == '-');
            assert(false);
        }
        lemma_rows_roundtrip(foods, w, h, 0, Seq::empty());
        assert(Seq::<Point>::empty() + board_foods_from(foods, w, h, 0) =~= board_foods_from(foods, w, h, 0));
    }
}

/// The column after the pending digits of a row, or `Err(None)` when it passes `i32::MAX`.
fn apply_skip(x: i32, digits: &Vec<char>) -> (r: Result<i32, Option<SnakeFenError>>)
    requires
        x >= 0,
    ensures
        checked_agrees(r, skip_digits(x as int, digits@), |v: i32| v as int),
{
    if digits.len() == 0 {
        return Ok(x);
    }
    let skip = match number_i32("food_skip", digits.as_slice()) {
        Ok(v) => v,
        Err(e) => return Err(Some(e)),
    };
    if skip <= 0 {
        return Err(Some(SnakeFenError::InvalidFoodGrid));
    }
    if x > i32::MAX - skip {
        return Err(None);
    }
    Ok(x + skip)
}

/// Decodes the food of a `width` by `height` board, or `Err(None)` when a column passes
/// `i32::MAX`.
fn decode_foods_checked(raw: &[char], width: i32, height: i32) -> (r: Result<Vec<Point>, Option<SnakeFenError>>)
    ensures
        checked_agrees(r, decode_foods_spec(raw@, width as int, height as int), |v: Vec<Point>| v@),
{
    let is_dash = chars_eq_str(raw, "-");
    proof {
        reveal_strlit("-");
        assert("-"@ =~= seq!['-']);
    }
    if is_dash {
        return Ok(Vec::new());
    }
    let rows = split_chars(raw, '/');
    let ghost rs = split_spec(raw@, '/');
    if rows.len() != height as usize {
        return Err(Some(SnakeFenError::InvalidFoodGrid));
    }
    let mut foods: Vec<Point> = Vec::new();
    let mut r: usize = 0;
    while r < rows.len()
        invariant
            views(rows@) == rs,
            rs.len() == (height as usize) as nat,
            rows@.len() == rs.len(),
            r <= rows@.len(),
            decode_foods_spec(raw@, width as int, height as int) == food_rows_from(rs, width as int, height as int, r as int, foods@),
        decreases rows@.len() - r,
    {
        let ghost yi: int = height - 1 - r;
        let y64: i128 = height as i128 - 1 - r as i128;
        let y: i32 = y64 as i32;
        let row = &rows[r];
        let ghost row_s = row@;
        assert(row_s == rs[r as int]);
        let mut x: i32 = 0;
        let mut digits: Vec<char> = Vec::new();
        let mut i: usize = 0;
        let ghost acc0 = foods@;
        let ghost total = decode_foods_spec(raw@, width as int, height as int);
        assert(row_s.skip(0) =~= row_s);
        while i < row.len()
            invariant
                row_s == row@,
                i <= row_s.len(),
                x >= 0,
                all_digits(digits@),
                yi == height - 1 - r,
                y == yi as i32,
                total == decode_foods_spec(raw@, width as int, height as int),
                total == match food_row_from(row_s.skip(i as int), width as int, yi, x as int, digits@, foods@) {
                    Err(e) => Err(e),
                    Ok(acc2) => food_rows_from(rs, width as int, height as int, r + 1, acc2),
                },
            decreases row_s.len() - i,
        {
            let ch = row[i];
            proof {
                assert(row_s.skip(i as int)[0] == ch);
                assert(row_s.skip(i as int).drop_first() =~= row_s.skip(i + 1));
            }
            if '0' <= ch && ch <= '9' {
                digits.push(ch);
            } else {
                let x2 = match apply_skip(x, &digits) {
                    Ok(v) => v,
                    Err(e) => return Err(e),
                };
                if ch != 'f' || x2 >= width {
                    return Err(Some(SnakeFenError::InvalidFoodGrid));
                }
                foods.push(Point { x: x2, y });
                x = x2 + 1;
                digits = Vec::new();
            }
            i += 1;
        }
        proof {
            assert(row_s.skip(i as int) =~= Seq::<char>::empty());
        }
        let x2 = match apply_skip(x, &digits) {
            Ok(v) => v,
            Err(e) => return Err(e),
        };
        if x2 != width {
            return Err(Some(SnakeFenError::InvalidFoodGrid));
        }
        r += 1;
    }
    Ok(foods)
}

/// Decodes the food of a `width` by `height` board.
pub fn decode_foods(raw: &[char], width: i32, height: i32) -> (r: Result<Vec<Point>, SnakeFenError>)
    requires
        decode_foods_spec(raw@, width as int, height as int) != Err::<Seq<Point>, FenErr>(FenErr::Overflow),
    ensures
        agrees(r, decode_foods_spec(raw@, width as int, height as int), |v: Vec<Point>| v@),
{
    match decode_foods_checked(raw, width, height) {
        Ok(v) => Ok(v),
        Err(Some(e)) => Err(e),
        Err(None) => {
            assert(false);
            Err(SnakeFenError::InvalidFoodGrid)
        },
    }
}

// ---------------------------------------------------------------------------------------------
// The whole position: `sfen <cols>x<rows> <turn>:<seed>:<p_health>:<a_health> <player body>
// <opponent body> <food> <opponent moves>`; the `sfen` prefix may be left out.
// ---------------------------------------------------------------------------------------------

/// A two-snake position in its compact text form.
#[derive(Debug, Clone, PartialEq, Eq)]
pub struct SnakeFen {
    pub cols: i32,
    pub rows: i32,
    pub turn: u32,
    pub seed: u32,
    pub p_health: i32,
    pub a_health: i32,
    pub p_body: Vec<Point>,
    pub a_body: Vec<Point>,
    pub foods: Vec<Point>,
    pub opponent_moves: Vec<Direction>,
}

/// A position with its lists as sequences.
pub ghost struct FenModel {
    pub cols: int,
    pub rows: int,
    pub turn: int,
    pub seed: int,
    pub p_health: int,
    pub a_health: int,
    pub p_body: Seq<Point>,
    pub a_body: Seq<Point>,
    pub foods: Seq<Point>,
    pub opponent_moves: Seq<Direction>,
}

/// The model of a position.
pub open spec fn fen_model(f: SnakeFen) -> FenModel {
    FenModel {
        cols: f.cols as int,
        rows: f.rows as int,
        turn: f.turn as int,
        seed: f.seed as int,
        p_health: f.p_health as int,
        a_health: f.a_health as int,
        p_body: f.p_body@,
        a_body: f.a_body@,
        foods: f.foods@,
        opponent_moves: f.opponent_moves@,
    }
}

/// The board size field `<cols>x<rows>`.
pub open spec fn dims_spec(raw: Seq<char>) -> Result<(int, int), FenErr> {
    match split_once_spec(raw, 'x') {
        None => Err(FenErr::InvalidDims(raw)),
        Some((c, r)) => match i32_of(c) {
            None => Err(FenErr::InvalidNumber("cols"@, c)),
            Some(cols) => match i32_of(r) {
                None => Err(FenErr::InvalidNumber("rows"@, r)),
                Some(rows) => Ok((cols, rows)),
            },
        },
    }
}

/// The meta field `<turn>:<seed>:<p_health>:<a_health>`.
pub open spec fn meta_spec(raw: Seq<char>) -> Result<(int, int, int, int), FenErr> {
    let parts = split_spec(raw, ':');
    if parts.len() != 4 {
        Err(FenErr::InvalidMeta(raw))
    } else {
        match u32_of(parts[0]) {
            None => Err(FenErr::InvalidNumber("turn"@, parts[0])),
            Some(turn) => match u32_of(parts[1]) {
                None => Err(FenErr::InvalidNumber("seed"@, parts[1])),
                Some(seed) => match i32_of(parts[2]) {
                    None => Err(FenErr::InvalidNumber("p_health"@, parts[2])),
                    Some(ph) => match i32_of(parts[3]) {
                        None => Err(FenErr::InvalidNumber("a_health"@, parts[3])),
                        Some(ah) => Ok((turn, seed, ph, ah)),
                    },
                },
            },
        }
    }
}

/// The six fields of a position string, after the optional `sfen` prefix (in any letter case).
pub open spec fn fen_fields(input: Seq<char>) -> Result<Seq<Seq<char>>, FenErr> {
    let t = trim_spec(input);
    if t.len() == 0 {
        Err(FenErr::EmptyInput)
    } else {
        let parts = words_spec(t);
        if parts.len() >= 1 && lower_spec(parts[0]) == seq!['s', 'f', 'e', 'n'] {
            if parts.len() - 1 != 6 { Err(FenErr::BadFieldCount((parts.len() - 1) as nat)) } else { Ok(parts.drop_first()) }
        } else if parts.len() == 6 {
            Ok(parts)
        } else {
            Err(FenErr::BadFieldCount(parts.len()))
        }
    }
}

/// The position a string encodes, or the first error met reading it.
pub open spec fn fen_spec(input: Seq<char>) -> Result<FenModel, FenErr> {
    match fen_fields(input) {
        Err(e) => Err(e),
        Ok(f) => match dims_spec(f[0]) {
            Err(e) => Err(e),
            Ok((cols, rows)) => if cols <= 0 || rows <= 0 {
                Err(FenErr::InvalidBoardSize(cols, rows))
            } else {
                match meta_spec(f[1]) {
                    Err(e) => Err(e),
                    Ok((turn, seed, ph, ah)) => match decode_body_spec(f[2]) {
                        Err(e) => Err(e),
                        Ok(pb) => match decode_body_spec(f[3]) {
                            Err(e) => Err(e),
                            Ok(ab) => match decode_foods_spec(f[4], cols, rows) {
                                Err(e) => Err(e),
                                Ok(foods) => match decode_moves_spec(f[5]) {
                                    Err(e) => Err(e),
                                    Ok(moves) => Ok(FenModel {
                                        cols,
                                        rows,
                                        turn,
                                        seed,
                                        p_health: ph,
                                        a_health: ah,
                                        p_body: pb,
                                        a_body: ab,
                                        foods,
                                        opponent_moves: moves,
                                    }),
                                },
                            },
                        },
                    },
                }
            },
        },
    }
}

/// The board size field of a position.
pub open spec fn dims_text(cols: int, rows: int) -> Seq<char> {
    signed_string(cols) + seq!['x'] + signed_string(rows)
}

/// The meta field of a position.
pub open spec fn meta_text(turn: int, seed: int, ph: int, ah: int) -> Seq<char> {
    dec_string(turn as nat) + seq![':'] + dec_string(seed as nat) + seq![':'] + signed_string(ph) + seq![':'] + signed_string(ah)
}

/// The text of a position.
pub open spec fn fen_text(f: FenModel) -> Seq<char> {
    seq!['s', 'f', 'e', 'n', ' '] + dims_text(f.cols, f.rows) + seq![' ']
        + meta_text(f.turn, f.seed, f.p_health, f.a_health) + seq![' ']
        + encode_body_spec(f.p_body) + seq![' '] + encode_body_spec(f.a_body) + seq![' ']
        + encode_foods_spec(f.foods, f.cols, f.rows) + seq![' '] + encode_moves_spec(f.opponent_moves)
}

/// Reads the board size field.
fn parse_dims(raw: &[char]) -> (r: Result<(i32, i32), SnakeFenError>)
    ensures
        agrees(r, dims_spec(raw@), |v: (i32, i32)| (v.0 as int, v.1 as int)),
{
    let (c, rw) = match split_once_chars(raw, 'x') {
        Some(p) => p,
        None => return Err(SnakeFenError::InvalidDims(string_from_chars(raw))),
    };
    let cols = match number_i32("cols", c.as_slice()) {
        Ok(v) => v,
        Err(e) => return Err(e),
    };
    let rows = match number_i32("rows", rw.as_slice()) {
        Ok(v) => v,
        Err(e) => return Err(e),
    };
    Ok((cols, rows))
}

/// Reads the meta field.
fn parse_meta(raw: &[char]) -> (r: Result<(u32, u32, i32, i32), SnakeFenError>)
    ensures
        agrees(r, meta_spec(raw@), |v: (u32, u32, i32, i32)| (v.0 as int, v.1 as int, v.2 as int, v.3 as int)),
{
    let parts = split_chars(raw, ':');
    if parts.len() != 4 {
        return Err(SnakeFenError::InvalidMeta(string_from_chars(raw)));
    }
    assert(parts@[0]@ == split_spec(raw@, ':')[0]);
    assert(parts@[1]@ == split_spec(raw@, ':')[1]);
    assert(parts@[2]@ == split_spec(raw@, ':')[2]);
    assert(parts@[3]@ == split_spec(raw@, ':')[3]);
    let turn = match number_u32("turn", parts[0].as_slice()) {
        Ok(v) => v,
        Err(e) => return Err(e),
    };
    let seed = match number_u32("seed", parts[1].as_slice()) {
        Ok(v) => v,
        Err(e) => return Err(e),
    };
    let ph = match number_i32("p_health", parts[2].as_slice()) {
        Ok(v) => v,
        Err(e) => return Err(e),
    };
    let ah = match number_i32("a_health", parts[3].as_slice()) {
        Ok(v) => v,
        Err(e) => return Err(e),
    };
    Ok((turn, seed, ph, ah))
}

/// Splits a position string into its six fields.
fn split_fields(input: &str) -> (r: Result<Vec<Vec<char>>, SnakeFenError>)
    ensures
        agrees(r, fen_fields(input@), |v: Vec<Vec<char>>| views(v@)),
{
    let chars = str_chars(input);
    let trimmed = trim_chars(chars.as_slice());
    if trimmed.len() == 0 {
        return Err(SnakeFenError::EmptyInput);
    }
    let mut parts = split_whitespace_chars(trimmed.as_slice());
    let ghost ps = views(parts@);
    if parts.len() >= 1 {
        let lowered = lower_chars(parts[0].as_slice());
        assert(parts@[0]@ == ps[0]);
        let is_prefix = chars_eq_str(lowered.as_slice(), "sfen");
        proof {
            reveal_strlit("sfen");
            assert("sfen"@ =~= seq!['s', 'f', 'e', 'n']);
        }
        if is_prefix {
            if parts.len() - 1 != 6 {
                return Err(SnakeFenError::BadFieldCount(parts.len() - 1));
            }
            parts.remove(0);
            assert(views(parts@) =~= ps.drop_first());
            return Ok(parts);
        }
    }
    if parts.len() == 6 {
        return Ok(parts);
    }
    Err(SnakeFenError::BadFieldCount(parts.len()))
}

impl SnakeFen {
    /// Reads a position string, or `Err(None)` when a coordinate leaves the range of `i32`.
    fn parse_inner(input: &str) -> (r: Result<Self, Option<SnakeFenError>>)
        ensures
            checked_agrees(r, fen_spec(input@), |f: SnakeFen| fen_model(f)),
    {
        let f = match split_fields(input) {
            Ok(f) => f,
            Err(e) => return Err(Some(e)),
        };
        let ghost fs = views(f@);
        assert(fen_fields(input@) == Ok::<Seq<Seq<char>>, FenErr>(fs));
        assert(fs.len() == 6);
        assert(f@.len() == 6);
        assert(f@[0]@ == fs[0] && f@[1]@ == fs[1] && f@[2]@ == fs[2]);
        assert(f@[3]@ == fs[3] && f@[4]@ == fs[4] && f@[5]@ == fs[5]);
        let (cols, rows) = match parse_dims(f[0].as_slice()) {
            Ok(d) => d,
            Err(e) => return Err(Some(e)),
        };
        if cols <= 0 || rows <= 0 {
            return Err(Some(SnakeFenError::InvalidBoardSize(cols, rows)));
        }
        let (turn, seed, p_health, a_health) = match parse_meta(f[1].as_slice()) {
            Ok(m) => m,
            Err(e) => return Err(Some(e)),
        };
        let p_body = match decode_body_checked(f[2].as_slice()) {
            Ok(b) => b,
            Err(e) => return Err(e),
        };
        let a_body = match decode_body_checked(f[3].as_slice()) {
            Ok(b) => b,
            Err(e) => return Err(e),
        };
        let foods = match decode_foods_checked(f[4].as_slice(), cols, rows) {
            Ok(v) => v,
            Err(e) => return Err(e),
        };
        let opponent_moves = match decode_moves(f[5].as_slice()) {
            Ok(v) => v,
            Err(e) => return Err(Some(e)),
        };
        let fen = SnakeFen { cols, rows, turn, seed, p_health, a_health, p_body, a_body, foods, opponent_moves };
        assert(fen_spec(input@) == Ok::<FenModel, FenErr>(fen_model(fen)));
        Ok(fen)
    }

    /// Reads a position string; `None` exactly when a coordinate of a body or of the food grid
    /// leaves the range of `i32` (where `parse` is not defined).
    pub fn parse_checked(input: &str) -> (r: Option<Result<Self, SnakeFenError>>)
        ensures
            r is None <==> fen_spec(input@) == Err::<FenModel, FenErr>(FenErr::Overflow),
            r matches Some(x) ==> agrees(x, fen_spec(input@), |f: SnakeFen| fen_model(f)),
    {
        match Self::parse_inner(input) {
            Ok(f) => Some(Ok(f)),
            Err(Some(e)) => {
                proof {
                    lemma_err_model_not_overflow(e);
                }
                Some(Err(e))
            },
            Err(None) => None,
        }
    }

    /// Reads a position string.
    pub fn parse(input: &str) -> (r: Result<Self, SnakeFenError>)
        requires
            fen_spec(input@) != Err::<FenModel, FenErr>(FenErr::Overflow),
        ensures
            agrees(r, fen_spec(input@), |f: SnakeFen| fen_model(f)),
    {
        match Self::parse_inner(input) {
            Ok(f) => Ok(f),
            Err(Some(e)) => Err(e),
            Err(None) => {
                assert(false);
                Err(SnakeFenError::EmptyInput)
            },
        }
    }

    /// The position as a string, prefix included.
    pub fn to_sfen_string(&self) -> (s: String)
        requires
            body_diffs_fit(self.p_body@),
            body_diffs_fit(self.a_body@),
            self.foods@.len() > 0 ==> 0 <= self.cols * self.rows <= i32::MAX,
        ensures
            s@ == fen_text(fen_model(*self)),
    {
        let mut dims: Vec<char> = Vec::new();
        push_signed(&mut dims, self.cols as i64);
        dims.push('x');
        push_signed(&mut dims, self.rows as i64);
        assert(dims@ =~= dims_text(self.cols as int, self.rows as int));
        let mut meta: Vec<char> = Vec::new();
        push_dec(&mut meta, self.turn as u128);
        meta.push(':');
        push_dec(&mut meta, self.seed as u128);
        meta.push(':');
        push_signed(&mut meta, self.p_health as i64);
        meta.push(':');
        push_signed(&mut meta, self.a_health as i64);
        assert(meta@ =~= meta_text(self.turn as int, self.seed as int, self.p_health as int, self.a_health as int));
        let pb = encode_body(self.p_body.as_slice());
        let ab = encode_body(self.a_body.as_slice());
        let fd = encode_foods(self.foods.as_slice(), self.cols, self.rows);
        let mv = encode_moves(self.opponent_moves.as_slice());
        let mut out: Vec<char> = vec!['s', 'f', 'e', 'n', ' '];
        append(&mut out, &dims);
        out.push(' ');
        append(&mut out, &meta);
        out.push(' ');
        append(&mut out, &pb);
        out.push(' ');
        append(&mut out, &ab);
        out.push(' ');
        append(&mut out, &fd);
        out.push(' ');
        append(&mut out, &mv);
        assert(out@ =~= fen_text(fen_model(*self)));
        string_from_chars(out.as_slice())
    }

    /// The game state this position describes: the player `s1` ("Player") and the opponent
    /// `s2` ("AI"), in that order.
    pub fn into_game_state(self) -> (g: GameState)
        ensures
            g.turn == self.turn,
            g.seed == self.seed as u64,
            g.board.width == self.cols,
            g.board.height == self.rows,
            g.board.food@ == self.foods@,
            g.board.snakes@.len() == 2,
            g.board.snakes@[0].id.0@ == "s1"@,
            g.board.snakes@[0].name@ == "Player"@,
            g.board.snakes@[0].body@ == self.p_body@,
            g.board.snakes@[0].health == self.p_health,
            g.board.snakes@[0].alive,
            g.board.snakes@[1].id.0@ == "s2"@,
            g.board.snakes@[1].name@ == "AI"@,
            g.board.snakes@[1].body@ == self.a_body@,
            g.board.snakes@[1].health == self.a_health,
            g.board.snakes@[1].alive,
    {
        let p = Snake::new("s1", "Player", self.p_body, self.p_health);
        let a = Snake::new("s2", "AI", self.a_body, self.a_health);
        GameState {
            turn: self.turn,
            seed: self.seed as u64,
            board: Board { width: self.cols, height: self.rows, food: self.foods, snakes: vec![p, a] },
        }
    }
}

// ---------------------------------------------------------------------------------------------
// Whole positions: a written position reads back.
// ---------------------------------------------------------------------------------------------

/// A character that a written field can hold; none of them is white space.
spec fn field_char(c: char) -> bool {
    is_digit(c) || c == '-' || c == ',' || c == ':' || c == 'x' || c == '/' || c == 'f'
        || c == 'U' || c == 'D' || c == 'L' || c == 'R' || c == 'S' || c == 'X'
        || c == 's' || c == 'e' || c == 'n'
}

/// Every character of `s` can stand in a written field.
spec fn field_text(s: Seq<char>) -> bool {
    forall|i: int| 0 <= i < s.len() ==> field_char(#[trigger] s[i])
}

/// Run-length encoding adds only digits to the characters of its input.
proof fn lemma_rle_chars(s: Seq<char>)
    requires
        field_text(s),
    ensures
        field_text(rle_enc_spec(s)),
    decreases s.len(),
{
    if s.len() > 0 {
        lemma_lead_run(s, s[0]);
        let n = lead_run(s, s[0]);
        let t = s.skip(n as int);
        assert forall|i: int| 0 <= i < t.len() implies field_char(#[trigger] t[i]) by {
            assert(t[i] == s[i + n]);
        }
        lemma_rle_chars(t);
        let cnt = if n > 1 { dec_string(n) } else { Seq::empty() };
        if n > 1 {
            lemma_dec_string_digits(n);
        }
        let r = rle_enc_spec(t);
        let e = rle_enc_spec(s);
        assert(e == cnt + seq![s[0]] + r);
        assert forall|i: int| 0 <= i < e.len() implies field_char(#[trigger] e[i]) by {
            if i < cnt.len() {
                assert(e[i] == cnt[i]);
                assert(is_digit(cnt[i]));
            } else if i > cnt.len() {
                assert(e[i] == r[i - cnt.len() - 1]);
            }
        }
    }
}

/// Pieces of field text joined with a field character are field text.
proof fn lemma_joined_chars(parts: Seq<Seq<char>>, sep: char)
    requires
        field_char(sep),
        forall|k: int| 0 <= k < parts.len() ==> field_text(#[trigger] parts[k]),
    ensures
        field_text(joined(parts, sep)),
    decreases parts.len(),
{
    if parts.len() > 1 {
        let front = parts.drop_last();
        lemma_joined_chars(front, sep);
        let jf = joined(front, sep);
        let last = parts.last();
        assert(field_text(last));
        let j = joined(parts, sep);
        assert(j == jf + seq![sep] + last);
        assert forall|i: int| 0 <= i < j.len() implies field_char(#[trigger] j[i]) by {
            if i < jf.len() {
                assert(j[i] == jf[i]);
            } else if i > jf.len() {
                assert(j[i] == last[i - jf.len() - 1]);
            }
        }
    } else if parts.len() == 1 {
        assert(field_text(parts[0]));
    }
}

/// A number written by `signed_string` is non-empty field text of digits and `-`.
proof fn lemma_signed_text(v: int)
    ensures
        field_text(signed_string(v)),
        signed_string(v).len() > 0,
        forall|i: int| 0 <= i < signed_string(v).len() ==>
            (is_digit(#[trigger] signed_string(v)[i]) || signed_string(v)[i] == '-'),
{
    lemma_signed_roundtrip(v);
}

/// A written body is non-empty field text.
proof fn lemma_body_text(b: Seq<Point>)
    ensures
        field_text(encode_body_spec(b)),
        encode_body_spec(b).len() > 0,
{
    if b.len() > 0 {
        let sx = signed_string(b[0].x as int);
        let sy = signed_string(b[0].y as int);
        lemma_signed_text(b[0].x as int);
        lemma_signed_text(b[0].y as int);
        let ht = head_text(b[0]);
        assert(ht == sx + seq![','] + sy);
        assert forall|i: int| 0 <= i < ht.len() implies field_char(#[trigger] ht[i]) by {
            if i < sx.len() {
                assert(ht[i] == sx[i]);
            } else if i > sx.len() {
                assert(ht[i] == sy[i - sx.len() - 1]);
            }
        }
        if b.len() > 1 {
            let path = body_path(b);
            assert forall|i: int| 0 <= i < path.len() implies field_char(#[trigger] path[i]) by {
                assert(path[i] == step_char(b[i], b[i + 1]));
            }
            lemma_rle_chars(path);
            let e = rle_enc_spec(path);
            let t = encode_body_spec(b);
            assert(t == ht + seq![':'] + e);
            assert forall|i: int| 0 <= i < t.len() implies field_char(#[trigger] t[i]) by {
                if i < ht.len() {
                    assert(t[i] == ht[i]);
                } else if i > ht.len() {
                    assert(t[i] == e[i - ht.len() - 1]);
                }
            }
        }
    }
}

/// A written move list is non-empty field text.
proof fn lemma_moves_text(m: Seq<Direction>)
    ensures
        field_text(encode_moves_spec(m)),
        encode_moves_spec(m).len() > 0,
{
    if m.len() > 0 {
        let s = m.map_values(|d: Direction| move_char(d));
        assert forall|i: int| 0 <= i < s.len() implies field_char(#[trigger] s[i]) by {}
        lemma_rle_chars(s);
        lemma_lead_run(s, s[0]);
        let n = lead_run(s, s[0]);
        let cnt = if n > 1 { dec_string(n) } else { Seq::empty() };
        assert(encode_moves_spec(m) == cnt + seq![s[0]] + rle_enc_spec(s.skip(n as int)));
    }
}

/// The text of a row of `w > 0` cells, or of pending empty cells, is not empty.
proof fn lemma_row_text_len(cells: Seq<bool>, pending: nat)
    requires
        cells.len() + pending > 0,
    ensures
        row_text(cells, pending).len() > 0,
    decreases cells.len(),
{
    if cells.len() == 0 {
        lemma_dec_string_digits(pending);
    } else if !cells[0] {
        lemma_row_text_len(cells.drop_first(), pending + 1);
    }
}

/// The written food of a board with at least one cell is non-empty field text.
proof fn lemma_foods_text(foods: Seq<Point>, w: int, h: int)
    requires
        w > 0,
        h > 0,
    ensures
        field_text(encode_foods_spec(foods, w, h)),
        encode_foods_spec(foods, w, h).len() > 0,
{
    if foods.len() > 0 {
        let rows = food_rows(foods, w, h);
        assert forall|k: int| 0 <= k < rows.len() implies field_text(#[trigger] rows[k]) by {
            lemma_row_text_chars(food_row(foods, w, h - 1 - k), 0);
        }
        lemma_joined_chars(rows, '/');
        lemma_row_text_len(food_row(foods, w, 0), 0);
        assert(rows.last() == row_text(food_row(foods, w, 0), 0));
        if rows.len() > 1 {
            assert(joined(rows, '/') == joined(rows.drop_last(), '/') + seq!['/'] + rows.last());
        }
    }
}

/// Cutting at white space when the last piece holds none extends the last piece.
proof fn lemma_split_ws_tail(a: Seq<char>, b: Seq<char>)
    requires
        forall|i: int| 0 <= i < b.len() ==> !is_ws(#[trigger] b[i]),
    ensures
        ({
            let p = split_ws_raw(a);
            split_ws_raw(a + b) == p.update(p.len() - 1, p.last() + b)
        }),
    decreases b.len(),
{
    lemma_split_ws_nonempty(a);
    let p = split_ws_raw(a);
    if b.len() == 0 {
        assert(a + b =~= a);
        assert(p.last() + b =~= p.last());
        assert(p.update(p.len() - 1, p.last() + b) =~= p);
    } else {
        lemma_split_ws_tail(a, b.drop_last());
        assert((a + b).drop_last() =~= a + b.drop_last());
        assert((a + b).last() == b.last());
        let q = p.update(p.len() - 1, p.last() + b.drop_last());
        assert(q.last().push(b.last()) =~= p.last() + b);
        assert(q.update(q.len() - 1, q.last().push(b.last())) =~= p.update(p.len() - 1, p.last() + b));
    }
}

/// Cutting pieces joined with spaces at white space gives them back when no piece holds any.
proof fn lemma_split_ws_joined(parts: Seq<Seq<char>>)
    requires
        parts.len() >= 1,
        forall|k: int, i: int| 0 <= k < parts.len() && 0 <= i < parts[k].len() ==> !is_ws(#[trigger] parts[k][i]),
    ensures
        split_ws_raw(joined(parts, ' ')) == parts,
    decreases parts.len(),
{
    if parts.len() == 1 {
        lemma_split_ws_tail(Seq::empty(), parts[0]);
        assert(Seq::<char>::empty() + parts[0] =~= parts[0]);
        assert(split_ws_raw(Seq::<char>::empty()) =~= seq![Seq::<char>::empty()]);
        assert(seq![Seq::<char>::empty()].update(0, Seq::<char>::empty() + parts[0]) =~= parts);
    } else {
        let front = parts.drop_last();
        lemma_split_ws_joined(front);
        let jf = joined(front, ' ');
        assert(joined(parts, ' ') == jf + seq![' '] + parts.last());
        lemma_split_ws_tail(jf + seq![' '], parts.last());
        assert((jf + seq![' ']).drop_last() =~= jf);
        let p = split_ws_raw(jf + seq![' ']);
        assert(p == front.push(Seq::empty()));
        assert(Seq::<char>::empty() + parts.last() =~= parts.last());
        assert(p.update(p.len() - 1, p.last() + parts.last()) =~= parts);
    }
}

/// Keeping the non-empty pieces of a list of non-empty pieces keeps them all.
proof fn lemma_keep_nonempty(parts: Seq<Seq<char>>)
    requires
        forall|k: int| 0 <= k < parts.len() ==> (#[trigger] parts[k]).len() > 0,
    ensures
        parts.filter(|w: Seq<char>| w.len() > 0) == parts,
    decreases parts.len(),
{
    reveal(Seq::filter);
    if parts.len() > 0 {
        lemma_keep_nonempty(parts.drop_last());
        assert(parts.drop_last().push(parts.last()) =~= parts);
    }
}

/// The words of pieces of non-empty field text joined with spaces are the pieces.
proof fn lemma_words_joined(parts: Seq<Seq<char>>)
    requires
        parts.len() >= 1,
        forall|k: int| 0 <= k < parts.len() ==> field_text(#[trigger] parts[k]) && parts[k].len() > 0,
    ensures
        words_spec(joined(parts, ' ')) == parts,
{
    assert forall|k: int, i: int| 0 <= k < parts.len() && 0 <= i < parts[k].len() implies !is_ws(#[trigger] parts[k][i]) by {
        assert(field_text(parts[k]));
        assert(field_char(parts[k][i]));
    }
    lemma_split_ws_joined(parts);
    lemma_keep_nonempty(parts);
}

/// A written number reads back as a `u32`.
proof fn lemma_u32_roundtrip(v: int)
    requires
        0 <= v <= u32::MAX,
    ensures
        u32_of(dec_string(v as nat)) == Some(v),
{
    lemma_dec_string_digits(v as nat);
}

/// A written number reads back as an `i32`.
proof fn lemma_i32_roundtrip(v: int)
    requires
        i32::MIN <= v <= i32::MAX,
    ensures
        i32_of(signed_string(v)) == Some(v),
{
    lemma_signed_roundtrip(v);
}

/// The board size field reads back.
proof fn lemma_dims_roundtrip(cols: int, rows: int)
    requires
        i32::MIN <= cols <= i32::MAX,
        i32::MIN <= rows <= i32::MAX,
    ensures
        dims_spec(dims_text(cols, rows)) == Ok::<(int, int), FenErr>((cols, rows)),
{
    let sc = signed_string(cols);
    let sr = signed_string(rows);
    lemma_signed_text(cols);
    lemma_signed_text(rows);
    lemma_i32_roundtrip(cols);
    lemma_i32_roundtrip(rows);
    let d = dims_text(cols, rows);
    assert(d == sc + seq!['x'] + sr);
    assert forall|j: int| 0 <= j < sc.len() implies d[j] != 'x' by {
        assert(d[j] == sc[j]);
    }
    lemma_first_index_at(d, 'x', 0, sc.len() as int);
    assert(d.take(sc.len() as int) =~= sc);
    assert(d.skip(sc.len() as int + 1) =~= sr);
}

/// The meta field is its four numbers joined with `:`.
proof fn lemma_meta_joined(turn: int, seed: int, ph: int, ah: int)
    ensures
        joined(seq![dec_string(turn as nat), dec_string(seed as nat), signed_string(ph), signed_string(ah)], ':')
            == meta_text(turn, seed, ph, ah),
{
    let parts = seq![dec_string(turn as nat), dec_string(seed as nat), signed_string(ph), signed_string(ah)];
    reveal_with_fuel(joined, 5);
    assert(parts.drop_last().drop_last().drop_last() =~= seq![parts[0]]);
    assert(parts.drop_last().drop_last() =~= seq![parts[0], parts[1]]);
    assert(parts.drop_last() =~= seq![parts[0], parts[1], parts[2]]);
    assert(joined(parts, ':') =~= meta_text(turn, seed, ph, ah));
}

/// The meta field is non-empty field text.
proof fn lemma_meta_text(turn: int, seed: int, ph: int, ah: int)
    requires
        0 <= turn,
        0 <= seed,
    ensures
        field_text(meta_text(turn, seed, ph, ah)),
        meta_text(turn, seed, ph, ah).len() > 0,
{
    let parts = seq![dec_string(turn as nat), dec_string(seed as nat), signed_string(ph), signed_string(ah)];
    lemma_dec_string_digits(turn as nat);
    lemma_dec_string_digits(seed as nat);
    lemma_signed_text(ph);
    lemma_signed_text(ah);
    lemma_meta_joined(turn, seed, ph, ah);
    assert forall|k: int| 0 <= k < parts.len() implies field_text(#[trigger] parts[k]) by {
        if k == 0 {
            assert forall|i: int| 0 <= i < parts[k].len() implies field_char(#[trigger] parts[k][i]) by {
                assert(is_digit(dec_string(turn as nat)[i]));
            }
        } else if k == 1 {
            assert forall|i: int| 0 <= i < parts[k].len() implies field_char(#[trigger] parts[k][i]) by {
                assert(is_digit(dec_string(seed as nat)[i]));
            }
        }
    }
    lemma_joined_chars(parts, ':');
    reveal_with_fuel(joined, 5);
    assert(parts.drop_last().drop_last().drop_last() =~= seq![parts[0]]);
    assert(parts.drop_last().drop_last() =~= seq![parts[0], parts[1]]);
    assert(parts.drop_last() =~= seq![parts[0], parts[1], parts[2]]);
}

/// The meta field reads back.
proof fn lemma_meta_roundtrip(turn: int, seed: int, ph: int, ah: int)
    requires
        0 <= turn <= u32::MAX,
        0 <= seed <= u32::MAX,
        i32::MIN <= ph <= i32::MAX,
        i32::MIN <= ah <= i32::MAX,
    ensures
        meta_spec(meta_text(turn, seed, ph, ah)) == Ok::<(int, int, int, int), FenErr>((turn, seed, ph, ah)),
{
    let parts = seq![dec_string(turn as nat), dec_string(seed as nat), signed_string(ph), signed_string(ah)];
    lemma_dec_string_digits(turn as nat);
    lemma_dec_string_digits(seed as nat);
    lemma_signed_text(ph);
    lemma_signed_text(ah);
    lemma_u32_roundtrip(turn);
    lemma_u32_roundtrip(seed);
    lemma_i32_roundtrip(ph);
    lemma_i32_roundtrip(ah);
    lemma_meta_joined(turn, seed, ph, ah);
    assert forall|k: int, i: int| 0 <= k < parts.len() && 0 <= i < parts[k].len() implies #[trigger] parts[k][i] != ':' by {
        if k == 0 {
            assert(is_digit(dec_string(turn as nat)[i]));
        } else if k == 1 {
            assert(is_digit(dec_string(seed as nat)[i]));
        }
    }
    lemma_split_joined(parts, ':');
}

/// The seven written parts of a position: the prefix and the six fields.
spec fn fen_parts(m: FenModel) -> Seq<Seq<char>> {
    seq![
        seq!['s', 'f', 'e', 'n'],
        dims_text(m.cols, m.rows),
        meta_text(m.turn, m.seed, m.p_health, m.a_health),
        encode_body_spec(m.p_body),
        encode_body_spec(m.a_body),
        encode_foods_spec(m.foods, m.cols, m.rows),
        encode_moves_spec(m.opponent_moves),
    ]
}

/// A written position is its parts joined with spaces.
#[verifier::rlimit(40)]
#[verifier::spinoff_prover]
proof fn lemma_fen_text_joined(m: FenModel)
    ensures
        joined(fen_parts(m), ' ') == fen_text(m),
{
    let parts = fen_parts(m);
    reveal_with_fuel(joined, 8);
    assert(parts.drop_last().drop_last().drop_last().drop_last().drop_last().drop_last() =~= seq![parts[0]]);
    assert(parts.drop_last().drop_last().drop_last().drop_last().drop_last() =~= seq![parts[0], parts[1]]);
    assert(parts.drop_last().drop_last().drop_last().drop_last() =~= seq![parts[0], parts[1], parts[2]]);
    assert(parts.drop_last().drop_last().drop_last() =~= seq![parts[0], parts[1], parts[2], parts[3]]);
    assert(parts.drop_last().drop_last() =~= seq![parts[0], parts[1], parts[2], parts[3], parts[4]]);
    assert(parts.drop_last() =~= seq![parts[0], parts[1], parts[2], parts[3], parts[4], parts[5]]);
    assert(joined(parts, ' ') =~= fen_text(m));
}

/// Each written part of a position is non-empty field text.
proof fn lemma_fen_parts_text(m: FenModel)
    requires
        m.cols > 0,
        m.rows > 0,
        0 <= m.turn,
        0 <= m.seed,
    ensures
        forall|k: int| 0 <= k < fen_parts(m).len() ==> field_text(#[trigger] fen_parts(m)[k]) && fen_parts(m)[k].len() > 0,
{
    let parts = fen_parts(m);
    let dims = dims_text(m.cols, m.rows);
    let sc = signed_string(m.cols);
    let sr = signed_string(m.rows);
    lemma_signed_text(m.cols);
    lemma_signed_text(m.rows);
    assert(dims == sc + seq!['x'] + sr);
    assert forall|i: int| 0 <= i < dims.len() implies field_char(#[trigger] dims[i]) by {
        if i < sc.len() {
            assert(dims[i] == sc[i]);
        } else if i > sc.len() {
            assert(dims[i] == sr[i - sc.len() - 1]);
        }
    }
    lemma_meta_text(m.turn, m.seed, m.p_health, m.a_health);
    lemma_body_text(m.p_body);
    lemma_body_text(m.a_body);
    lemma_foods_text(m.foods, m.cols, m.rows);
    lemma_moves_text(m.opponent_moves);
    let head = parts[0];
    assert forall|i: int| 0 <= i < head.len() implies field_char(#[trigger] head[i]) by {}
}

/// The fields of a written position are its six written parts.
proof fn lemma_fen_text_fields(m: FenModel)
    requires
        m.cols > 0,
        m.rows > 0,
        0 <= m.turn,
        0 <= m.seed,
    ensures
        fen_fields(fen_text(m)) == Ok::<Seq<Seq<char>>, FenErr>(fen_parts(m).drop_first()),
{
    let parts = fen_parts(m);
    let t = fen_text(m);
    lemma_fen_parts_text(m);
    lemma_fen_text_joined(m);
    lemma_words_joined(parts);
    let mv = parts[6];
    // Trimming leaves the text alone: it starts with `s` and ends with a field character.
    assert(t =~= seq!['s', 'f', 'e', 'n', ' '] + (t.subrange(5, t.len() - mv.len())) + mv);
    assert(t[0] == 's');
    assert(t.last() == mv.last());
    assert(field_char(mv[mv.len() - 1]));
    assert(lead_ws(t) == 0);
    assert(trail_ws(t) == 0);
    assert(t.subrange(0, t.len() as int) =~= t);
    assert(trim_spec(t) == t);
    assert(lower_spec(parts[0]) =~= parts[0]);
}

/// Whether `p` comes before `q` on the board: a higher row first, then further left.
pub open spec fn board_before(p: Point, q: Point) -> bool {
    p.y > q.y || (p.y == q.y && p.x < q.x)
}

/// Whether every item of `foods` lies on a `w` by `h` board and each comes strictly before the
/// next on the board (so no cell is listed twice).
pub open spec fn in_board_order(foods: Seq<Point>, w: int, h: int) -> bool {
    &&& forall|k: int| 0 <= k < foods.len() ==> 0 <= (#[trigger] foods[k]).x < w && 0 <= foods[k].y < h
    &&& forall|i: int, j: int| 0 <= i < j < foods.len() ==> board_before(#[trigger] foods[i], #[trigger] foods[j])
}

/// Two lists in board order with the same members are the same list.
proof fn lemma_board_order_unique(a: Seq<Point>, b: Seq<Point>)
    requires
        forall|i: int, j: int| 0 <= i < j < a.len() ==> board_before(#[trigger] a[i], #[trigger] a[j]),
        forall|i: int, j: int| 0 <= i < j < b.len() ==> board_before(#[trigger] b[i], #[trigger] b[j]),
        forall|p: Point| a.contains(p) <==> b.contains(p),
    ensures
        a == b,
    decreases a.len(),
{
    if a.len() == 0 {
        if b.len() > 0 {
            assert(b.contains(b[0]));
        }
        assert(a =~= b);
    } else {
        assert(a.contains(a[0]));
        let k = choose|k: int| 0 <= k < b.len() && b[k] == a[0];
        assert(b.contains(b[0]));
        let m = choose|m: int| 0 <= m < a.len() && a[m] == b[0];
        if k > 0 {
            assert(board_before(b[0], b[k]));
            if m > 0 {
                assert(board_before(a[0], a[m]));
            }
        }
        assert(a[0] == b[0]);
        let a1 = a.drop_first();
        let b1 = b.drop_first();
        assert forall|p: Point| a1.contains(p) <==> b1.contains(p) by {
            if a1.contains(p) {
                let i = choose|i: int| 0 <= i < a1.len() && a1[i] == p;
                assert(a[i + 1] == p && board_before(a[0], a[i + 1]));
                assert(a.contains(p));
                let j = choose|j: int| 0 <= j < b.len() && b[j] == p;
                assert(j != 0);
                assert(b1[j - 1] == p);
            }
            if b1.contains(p) {
                let i = choose|i: int| 0 <= i < b1.len() && b1[i] == p;
                assert(b[i + 1] == p && board_before(b[0], b[i + 1]));
                assert(b.contains(p));
                let j = choose|j: int| 0 <= j < a.len() && a[j] == p;
                assert(j != 0);
                assert(a1[j - 1] == p);
            }
        }
        lemma_board_order_unique(a1, b1);
        assert(a =~= seq![a[0]] + a1);
        assert(b =~= seq![b[0]] + b1);
    }
}

/// The food of one row lists, left to right, the cells `(x0 + i, y)` whose flag is set.
proof fn lemma_row_foods_members(cells: Seq<bool>, x0: int, y: int)
    requires
        i32::MIN <= x0,
        x0 + cells.len() <= i32::MAX + 1,
        i32::MIN <= y <= i32::MAX,
    ensures
        forall|p: Point| row_foods(cells, x0, y).contains(p) <==>
            (p.y == y && x0 <= p.x < x0 + cells.len() && cells[p.x - x0]),
        forall|i: int, j: int| 0 <= i < j < row_foods(cells, x0, y).len() ==>
            (#[trigger] row_foods(cells, x0, y)[i]).x < (#[trigger] row_foods(cells, x0, y)[j]).x
            && row_foods(cells, x0, y)[i].y == y && row_foods(cells, x0, y)[j].y == y,
    decreases cells.len(),
{
    if cells.len() > 0 {
        let rest_cells = cells.drop_first();
        lemma_row_foods_members(rest_cells, x0 + 1, y);
        let rest = row_foods(rest_cells, x0 + 1, y);
        let s = row_foods(cells, x0, y);
        let head = Point { x: x0 as i32, y: y as i32 };
        assert forall|p: Point| s.contains(p) <==> (p.y == y && x0 <= p.x < x0 + cells.len() && cells[p.x - x0]) by {
            assert(rest.contains(p) <==> (p.y == y && x0 + 1 <= p.x < x0 + 1 + rest_cells.len() && rest_cells[p.x - (x0 + 1)]));
            if x0 < p.x < x0 + cells.len() {
                assert(rest_cells[p.x - (x0 + 1)] == cells[p.x - x0]);
            }
            if cells[0] {
                assert(s =~= seq![head] + rest);
                if s.contains(p) {
                    let i = choose|i: int| 0 <= i < s.len() && s[i] == p;
                    if i > 0 {
                        assert(rest[i - 1] == p);
                        assert(rest.contains(p));
                    } else {
                        assert(p == head);
                    }
                }
                if p.y == y && x0 <= p.x < x0 + cells.len() && cells[p.x - x0] {
                    if p.x == x0 {
                        assert(p == head);
                        assert(s[0] == p);
                    } else {
                        assert(rest.contains(p));
                        let i = choose|i: int| 0 <= i < rest.len() && rest[i] == p;
                        assert(s[i + 1] == p);
                    }
                }
            } else {
                assert(s == rest);
            }
        }
        if cells[0] {
            assert(s =~= seq![head] + rest);
            assert forall|i: int, j: int| 0 <= i < j < s.len() implies
                (#[trigger] s[i]).x < (#[trigger] s[j]).x && s[i].y == y && s[j].y == y by {
                if i > 0 {
                    assert(s[i] == rest[i - 1] && s[j] == rest[j - 1]);
                } else {
                    assert(s[j] == rest[j - 1]);
                    assert(rest.contains(rest[j - 1]));
                }
            }
        }
    }
}

/// The food the encoding keeps of rows `r..h` lies on those rows, each item a food cell, in board
/// order.
proof fn lemma_board_foods_from_members(foods: Seq<Point>, w: int, h: int, r: int)
    requires
        0 < w <= i32::MAX,
        0 < h <= i32::MAX,
        0 <= r <= h,
    ensures
        forall|p: Point| board_foods_from(foods, w, h, r).contains(p) <==>
            (0 <= p.y <= h - 1 - r && 0 <= p.x < w && food_at(foods, p.x as int, p.y as int)),
        forall|i: int, j: int| 0 <= i < j < board_foods_from(foods, w, h, r).len() ==>
            board_before(#[trigger] board_foods_from(foods, w, h, r)[i], #[trigger] board_foods_from(foods, w, h, r)[j]),
    decreases h - r,
{
    if r < h {
        let y = h - 1 - r;
        let cells = food_row(foods, w, y);
        lemma_row_foods_members(cells, 0, y);
        lemma_board_foods_from_members(foods, w, h, r + 1);
        let row = row_foods(cells, 0, y);
        let rest = board_foods_from(foods, w, h, r + 1);
        let s = board_foods_from(foods, w, h, r);
        assert(s == row + rest);
        assert forall|p: Point| s.contains(p) <==>
            (0 <= p.y <= h - 1 - r && 0 <= p.x < w && food_at(foods, p.x as int, p.y as int)) by {
            if s.contains(p) {
                let i = choose|i: int| 0 <= i < s.len() && s[i] == p;
                if i < row.len() {
                    assert(row.contains(p));
                } else {
                    assert(rest[i - row.len()] == p);
                    assert(rest.contains(p));
                }
            }
            if 0 <= p.y <= h - 1 - r && 0 <= p.x < w && food_at(foods, p.x as int, p.y as int) {
                if p.y == y {
                    assert(cells[p.x as int]);
                    assert(row.contains(p));
                    let i = choose|i: int| 0 <= i < row.len() && row[i] == p;
                    assert(s[i] == p);
                } else {
                    assert(rest.contains(p));
                    let i = choose|i: int| 0 <= i < rest.len() && rest[i] == p;
                    assert(s[i + row.len()] == p);
                }
            }
        }
        assert forall|i: int, j: int| 0 <= i < j < s.len() implies board_before(#[trigger] s[i], #[trigger] s[j]) by {
            if j < row.len() {
                assert(s[i] == row[i] && s[j] == row[j]);
            } else if i >= row.len() {
                assert(s[i] == rest[i - row.len()] && s[j] == rest[j - row.len()]);
            } else {
                assert(s[i] == row[i]);
                assert(row.contains(row[i]));
                assert(s[j] == rest[j - row.len()]);
                assert(rest.contains(rest[j - row.len()]));
            }
        }
    }
}

/// Food already listed on the board in board order is kept by the encoding as it is.
pub proof fn lemma_board_foods_in_order(foods: Seq<Point>, w: int, h: int)
    requires
        0 < w <= i32::MAX,
        0 < h <= i32::MAX,
        in_board_order(foods, w, h),
    ensures
        board_foods(foods, w, h) == foods,
{
    if foods.len() > 0 {
        lemma_board_foods_from_members(foods, w, h, 0);
        let b = board_foods_from(foods, w, h, 0);
        assert forall|p: Point| b.contains(p) <==> foods.contains(p) by {
            if foods.contains(p) {
                let k = choose|k: int| 0 <= k < foods.len() && foods[k] == p;
                assert(food_at(foods, p.x as int, p.y as int));
            }
            if b.contains(p) {
                let k = choose|k: int| 0 <= k < foods.len() && foods[k].x == p.x && foods[k].y == p.y;
                assert(foods[k] == p);
            }
        }
        lemma_board_order_unique(b, foods);
    }
}

/// Writing a position and reading it back gives the position, its food as the board holds it:
/// one entry per food cell on the board, top row first and left to right. This holds for a board
/// of positive size whose bodies have each segment one step from the next or stacked on it.
pub proof fn lemma_fen_roundtrip(f: SnakeFen)
    requires
        f.cols > 0,
        f.rows > 0,
        connected(f.p_body@),
        connected(f.a_body@),
    ensures
        fen_spec(fen_text(fen_model(f))) == Ok::<FenModel, FenErr>(FenModel {
            cols: f.cols as int,
            rows: f.rows as int,
            turn: f.turn as int,
            seed: f.seed as int,
            p_health: f.p_health as int,
            a_health: f.a_health as int,
            p_body: f.p_body@,
            a_body: f.a_body@,
            foods: board_foods(f.foods@, f.cols as int, f.rows as int),
            opponent_moves: f.opponent_moves@,
        }),
{
    let m = fen_model(f);
    assert(f.p_body@.len() == f.p_body.len());
    assert(f.a_body@.len() == f.a_body.len());
    assert(f.opponent_moves@.len() == f.opponent_moves.len());
    lemma_fen_text_fields(m);
    assert(fen_parts(m).drop_first() =~= seq![
        dims_text(m.cols, m.rows),
        meta_text(m.turn, m.seed, m.p_health, m.a_health),
        encode_body_spec(m.p_body),
        encode_body_spec(m.a_body),
        encode_foods_spec(m.foods, m.cols, m.rows),
        encode_moves_spec(m.opponent_moves),
    ]);
    lemma_dims_roundtrip(m.cols, m.rows);
    lemma_meta_roundtrip(m.turn, m.seed, m.p_health, m.a_health);
    lemma_body_roundtrip(m.p_body);
    lemma_body_roundtrip(m.a_body);
    lemma_foods_roundtrip(m.foods, m.cols, m.rows);
    lemma_moves_roundtrip(m.opponent_moves);
}

/// Food listed on the board in board order (top row first, left to right, each cell once) reads
/// back exactly as it was written.
pub proof fn lemma_foods_in_order_roundtrip(foods: Seq<Point>, w: int, h: int)
    requires
        0 < w <= i32::MAX,
        0 < h <= i32::MAX,
        h <= usize::MAX,
        in_board_order(foods, w, h),
    ensures
        decode_foods_spec(encode_foods_spec(foods, w, h), w, h) == Ok::<Seq<Point>, FenErr>(foods),
{
    lemma_foods_roundtrip(foods, w, h);
    lemma_board_foods_in_order(foods, w, h);
}

/// A position whose food is listed in board order reads back exactly as it was written.
pub proof fn lemma_fen_roundtrip_in_order(f: SnakeFen)
    requires
        f.cols > 0,
        f.rows > 0,
        connected(f.p_body@),
        connected(f.a_body@),
        in_board_order(f.foods@, f.cols as int, f.rows as int),
    ensures
        fen_spec(fen_text(fen_model(f))) == Ok::<FenModel, FenErr>(fen_model(f)),
{
    lemma_fen_roundtrip(f);
    lemma_board_foods_in_order(f.foods@, f.cols as int, f.rows as int);
}

/// Appends `src` to `out`.
fn append(out: &mut Vec<char>, src: &Vec<char>)
    ensures
        final(out)@ == old(out)@ + src@,
{
    let mut k: usize = 0;
    while k < src.len()
        invariant
            k <= src@.len(),
            out@ == old(out)@ + src@.subrange(0, k as int),
        decreases src@.len() - k,
    {
        out.push(src[k]);
        k += 1;
        assert(out@ =~= old(out)@ + src@.subrange(0, k as int));
    }
    assert(src@.subrange(0, k as int) =~= src@);
}


} // verus!
