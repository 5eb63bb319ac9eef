//! Cube faces and the scramble notation: turning one whitespace-delimited
//! token such as `R`, `Rw2` or `3Fw'` into a structured move.

use vstd::prelude::*;

verus! {

use vstd::arithmetic::div_mod::lemma_mod_multiples_vanish;

/// One of the six faces of the cube, which also tags every facelet with the
/// face it belongs to on a solved cube.
#[derive(Debug, Copy, Clone, PartialEq, Eq, Structural)]
pub enum Face {
    R,
    U,
    F,
    L,
    D,
    B,
}

impl Face {
    /// The fixed index of the face in the state grid: R, U, F, L, D, B map
    /// to 0 through 5.
    pub open spec fn index_spec(self) -> int {
        match self {
            Face::R => 0,
            Face::U => 1,
            Face::F => 2,
            Face::L => 3,
            Face::D => 4,
            Face::B => 5,
        }
    }

    pub fn index(self) -> (r: usize)
        ensures
            r as int == self.index_spec(),
    {
        match self {
            Face::R => 0,
            Face::U => 1,
            Face::F => 2,
            Face::L => 3,
            Face::D => 4,
            Face::B => 5,
        }
    }
}

/// How far a layer is turned by one move.
#[derive(Debug, Copy, Clone, PartialEq, Eq, Structural)]
pub enum Direction {
    NoTurn,
    Clockwise,
    Half,
    CounterClockwise,
}

/// One parsed scramble token: which face the turn is seen from, the 0-based
/// index of the turned layer, whether all outer layers turn with it (a wide
/// move), and the turn direction.
#[derive(Debug, Copy, Clone, PartialEq, Eq, Structural)]
pub struct Move {
    pub face: Face,
    pub dir: Direction,
    pub depth: usize,
    pub wide: bool,
}

/// The error kinds that scramble application can report.
#[derive(Debug, Copy, Clone, PartialEq, Eq, Structural)]
pub enum ScrambleError {
    /// A token has no face letter, an unknown face letter, a byte outside
    /// ASCII, an explicit layer number `0`, or combines the wide marker with
    /// a lowercase (slice) face letter.
    InvalidNotationToken,
    /// A token names a layer that does not exist on a cube of the given
    /// order.
    DepthOutOfRange,
}

pub open spec fn is_digit_byte(b: u8) -> bool {
    48 <= b <= 57
}

pub open spec fn all_ascii_bytes(s: Seq<u8>) -> bool {
    forall|i: int| 0 <= i < s.len() ==> #[trigger] s[i] < 128
}

pub open spec fn is_alpha_byte(b: u8) -> bool {
    (65 <= b <= 90) || (97 <= b <= 122)
}

pub open spec fn is_lower_byte(b: u8) -> bool {
    97 <= b <= 122
}

/// ASCII whitespace: space, tab, line feed, form feed, carriage return.
pub open spec fn is_ws_byte(b: u8) -> bool {
    b == 32 || b == 9 || b == 10 || b == 12 || b == 13
}

pub open spec fn all_digit_bytes(s: Seq<u8>) -> bool {
    forall|i: int| 0 <= i < s.len() ==> is_digit_byte(#[trigger] s[i])
}

/// The numeric value of a string of decimal digit bytes.
pub open spec fn digits_val(s: Seq<u8>) -> nat
    decreases s.len(),
{
    if s.len() == 0 {
        0
    } else {
        (digits_val(s.drop_last()) * 10 + (s.last() - 48)) as nat
    }
}

/// The number of bytes before the first ASCII letter (the whole length if
/// there is none).
pub open spec fn alpha_start(s: Seq<u8>) -> nat
    decreases s.len(),
{
    if s.len() == 0 {
        0
    } else if is_alpha_byte(s[0]) {
        0
    } else {
        1 + alpha_start(s.drop_first())
    }
}

/// The length of the run of ASCII letters at the start of the string.
pub open spec fn alpha_run(s: Seq<u8>) -> nat
    decreases s.len(),
{
    if s.len() == 0 {
        0
    } else if !is_alpha_byte(s[0]) {
        0
    } else {
        1 + alpha_run(s.drop_first())
    }
}

proof fn lemma_alpha_start_is(s: Seq<u8>, l: int)
    requires
        0 <= l <= s.len(),
        forall|k: int| 0 <= k < l ==> !is_alpha_byte(#[trigger] s[k]),
        l < s.len() ==> is_alpha_byte(s[l]),
    ensures
        alpha_start(s) == l,
    decreases s.len(),
{
    if s.len() == 0 {
    } else if l == 0 {
        if !is_alpha_byte(s[0]) {
            // then l < s.len() would demand is_alpha_byte(s[0]); so l == s.len() == 0
            assert(s.len() > 0 && l < s.len());
            assert(false);
        }
    } else {
        assert(!is_alpha_byte(s[0]));
        let t = s.drop_first();
        assert(forall|k: int| 0 <= k < l - 1 ==> !is_alpha_byte(#[trigger] t[k]));
        lemma_alpha_start_is(t, l - 1);
    }
}

proof fn lemma_alpha_run_is(s: Seq<u8>, l: int)
    requires
        0 <= l <= s.len(),
        forall|k: int| 0 <= k < l ==> is_alpha_byte(#[trigger] s[k]),
        l < s.len() ==> !is_alpha_byte(s[l]),
    ensures
        alpha_run(s) == l,
    decreases s.len(),
{
    if s.len() == 0 {
    } else if l == 0 {
        if is_alpha_byte(s[0]) {
            assert(false);
        }
    } else {
        assert(is_alpha_byte(s[0]));
        let t = s.drop_first();
        assert(forall|k: int| 0 <= k < l - 1 ==> is_alpha_byte(#[trigger] t[k]));
        lemma_alpha_run_is(t, l - 1);
    }
}

/// The face named by an ASCII letter byte, matched case-insensitively.
pub open spec fn face_of_letter(b: u8) -> Option<Face> {
    if b == 82 || b == 114 {
        Some(Face::R)
    } else if b == 85 || b == 117 {
        Some(Face::U)
    } else if b == 70 || b == 102 {
        Some(Face::F)
    } else if b == 76 || b == 108 {
        Some(Face::L)
    } else if b == 68 || b == 100 {
        Some(Face::D)
    } else if b == 66 || b == 98 {
        Some(Face::B)
    } else {
        None
    }
}

/// The turn direction encoded by `0..3`: none, clockwise, half,
/// counter-clockwise.
pub open spec fn dir_of_code(c: nat) -> Direction {
    if c == 0 {
        Direction::NoTurn
    } else if c == 1 {
        Direction::Clockwise
    } else if c == 2 {
        Direction::Half
    } else {
        Direction::CounterClockwise
    }
}

/// What one token means on a cube of order `size`.
///
/// The grammar is `[layerDigits] faceLetter ['w'] [turnDigits] ['\'']`, all
/// in ASCII: leading digits give a 1-indexed layer (default 1, or 2 for a
/// wide move), `w` marks a wide move, trailing digits give the turn
/// multiplicity modulo 4 (default 1) and a final apostrophe negates the
/// direction.  A token with a byte outside ASCII, with no letter, an unknown
/// face letter, a layer number `0`, or a wide marker on a lowercase slice
/// letter is invalid; a layer past the cube's far face is out of range.  A
/// suffix that is not digits-then-apostrophe contributes the default
/// multiplicity, as does a non-numeric prefix.
pub open spec fn parse_token_spec(t: Seq<u8>, size: int) -> Result<Move, ScrambleError> {
    let a = alpha_start(t) as int;
    if !all_ascii_bytes(t) {
        Err(ScrambleError::InvalidNotationToken)
    } else if a == t.len() {
        Err(ScrambleError::InvalidNotationToken)
    } else {
        let g = alpha_run(t.skip(a)) as int;
        let seg = t.skip(a).take(g);
        let wide = seg.contains(119);
        let lead = t[a];
        if wide && is_lower_byte(lead) {
            Err(ScrambleError::InvalidNotationToken)
        } else {
            match face_of_letter(lead) {
                None => Err(ScrambleError::InvalidNotationToken),
                Some(face) => {
                    let pre = t.take(a);
                    let dflt: nat = if wide {
                        2
                    } else {
                        1
                    };
                    let pv: nat = if pre.len() > 0 && all_digit_bytes(pre) {
                        digits_val(pre)
                    } else {
                        dflt
                    };
                    if pv == 0 {
                        Err(ScrambleError::InvalidNotationToken)
                    } else if pv > size {
                        Err(ScrambleError::DepthOutOfRange)
                    } else {
                        let suf = t.skip(a + g);
                        let prime = suf.len() > 0 && suf.last() == 39;
                        let digs = if prime {
                            suf.drop_last()
                        } else {
                            suf
                        };
                        let x: nat = if digs.len() > 0 && all_digit_bytes(digs) {
                            digits_val(digs) % 4
                        } else {
                            1
                        };
                        let code: nat = if prime {
                            ((4 - x) % 4) as nat
                        } else {
                            x
                        };
                        Ok(
                            Move {
                                face,
                                dir: dir_of_code(code),
                                depth: (pv - 1) as usize,
                                wide,
                            },
                        )
                    }
                }
            }
        }
    }
}

fn face_of_letter_exec(b: u8) -> (r: Option<Face>)
    ensures
        r == face_of_letter(b),
{
    if b == 82 || b == 114 {
        Some(Face::R)
    } else if b == 85 || b == 117 {
        Some(Face::U)
    } else if b == 70 || b == 102 {
        Some(Face::F)
    } else if b == 76 || b == 108 {
        Some(Face::L)
    } else if b == 68 || b == 100 {
        Some(Face::D)
    } else if b == 66 || b == 98 {
        Some(Face::B)
    } else {
        None
    }
}

/// Parses one scramble token for a cube of order `size`.
pub(crate) fn parse_token(t: &[u8], size: usize) -> (r: Result<Move, ScrambleError>)
    requires
        2 <= size <= 16384,
    ensures
        r == parse_token_spec(t@, size as int),
{
    let n = t.len();
    // the notation is ASCII; any other byte invalidates the token
    let mut z: usize = 0;
    while z < n
        invariant
            0 <= z <= n,
            n == t@.len(),
            forall|k: int| 0 <= k < z ==> #[trigger] t@[k] < 128,
        decreases n - z,
    {
        if t[z] >= 128 {
            return Err(ScrambleError::InvalidNotationToken);
        }
        z += 1;
    }
    assert(all_ascii_bytes(t@));
    // find the first ASCII letter
    let mut a: usize = 0;
    while a < n && !((t[a] >= 65 && t[a] <= 90) || (t[a] >= 97 && t[a] <= 122))
        invariant
            0 <= a <= n,
            n == t@.len(),
            forall|k: int| 0 <= k < a ==> !is_alpha_byte(#[trigger] t@[k]),
        decreases n - a,
    {
        a += 1;
    }
    proof {
        lemma_alpha_start_is(t@, a as int);
    }
    if a == n {
        return Err(ScrambleError::InvalidNotationToken);
    }
    // find the end of the letter run
    let mut e: usize = a;
    while e < n && ((t[e] >= 65 && t[e] <= 90) || (t[e] >= 97 && t[e] <= 122))
        invariant
            a <= e <= n,
            n == t@.len(),
            forall|k: int| a <= k < e ==> is_alpha_byte(#[trigger] t@[k]),
        decreases n - e,
    {
        e += 1;
    }
    proof {
        let sk = t@.skip(a as int);
        assert(forall|k: int| 0 <= k < e - a ==> is_alpha_byte(#[trigger] sk[k]));
        lemma_alpha_run_is(sk, e - a);
    }
    let ghost g = (e - a) as int;
    // wide marker: a lowercase 'w' anywhere in the letter run
    let mut wide = false;
    let mut k: usize = a;
    while k < e
        invariant
            a <= k <= e <= n,
            n == t@.len(),
            wide == exists|j: int| a <= j < k && t@[j] == 119,
        decreases e - k,
    {
        if t[k] == 119 {
            wide = true;
        }
        k += 1;
    }
    proof {
        let seg = t@.skip(a as int).take(g);
        assert(seg.len() == g);
        assert(forall|j: int| 0 <= j < g ==> seg[j] == t@[a + j]);
        assert(wide == seg.contains(119)) by {
            if wide {
                let j = choose|j: int| a <= j < e && t@[j] == 119;
                assert(seg[j - a] == 119);
            } else {
                if seg.contains(119) {
                    let j = choose|j: int| 0 <= j < seg.len() && seg[j] == 119;
                    assert(t@[a + j] == 119);
                }
            }
        }
    }
    let lead = t[a];
    if wide && lead >= 97 && lead <= 122 {
        return Err(ScrambleError::InvalidNotationToken);
    }
    let face = match face_of_letter_exec(lead) {
        Some(f) => f,
        None => {
            return Err(ScrambleError::InvalidNotationToken);
        },
    };
    // leading digits: a 1-indexed layer number
    let dflt: usize = if wide {
        2
    } else {
        1
    };
    let mut pre_digits = true;
    let mut pv: usize = 0;
    let mut over = false;
    let mut i: usize = 0;
    while i < a
        invariant
            0 <= i <= a <= n,
            n == t@.len(),
            2 <= size <= 16384,
            pre_digits == all_digit_bytes(t@.take(a as int).take(i as int)),
            (pre_digits && !over) ==> pv == digits_val(t@.take(a as int).take(i as int)) && pv
                <= size,
            (pre_digits && over) ==> digits_val(t@.take(a as int).take(i as int)) > size,
        decreases a - i,
    {
        let b = t[i];
        proof {
            let seen = t@.take(a as int).take(i as int);
            let seen2 = t@.take(a as int).take(i + 1);
            assert(seen2.drop_last() =~= seen);
            assert(seen2.last() == t@[i as int]);
        }
        if b >= 48 && b <= 57 {
            if pre_digits && !over {
                let d = (b - 48) as usize;
                let next = pv * 10 + d;
                if next > size {
                    over = true;
                } else {
                    pv = next;
                }
            } else if pre_digits && over {
                proof {
                    let seen = t@.take(a as int).take(i as int);
                    let seen2 = t@.take(a as int).take(i + 1);
                    assert(digits_val(seen2) == digits_val(seen) * 10 + (b - 48));
                    assert(digits_val(seen) * 10 >= digits_val(seen));
                }
            }
        } else {
            pre_digits = false;
        }
        i += 1;
    }
    proof {
        assert(t@.take(a as int).take(a as int) =~= t@.take(a as int));
    }
    let ghost pre = t@.take(a as int);
    let pv_final: usize = if a > 0 && pre_digits {
        if over {
            proof {
                assert(digits_val(pre) > size);
            }
            return Err(ScrambleError::DepthOutOfRange);
        }
        if pv == 0 {
            return Err(ScrambleError::InvalidNotationToken);
        }
        pv
    } else {
        dflt
    };
    // at this point pv_final is the spec `pv`, and 1 <= pv_final <= size
    // turn suffix: optional digits, then an optional apostrophe
    let prime = e < n && t[n - 1] == 39;
    let dig_end = if prime {
        n - 1
    } else {
        n
    };
    let ghost suf = t@.skip(a + g);
    proof {
        assert(suf.len() == n - e);
        assert(forall|j: int| 0 <= j < suf.len() ==> suf[j] == t@[e + j]);
        if suf.len() > 0 {
            assert(suf.last() == t@[n - 1]);
        }
        assert(prime == (suf.len() > 0 && suf.last() == 39));
    }
    let ghost digs = if prime {
        suf.drop_last()
    } else {
        suf
    };
    proof {
        assert(digs.len() == dig_end - e);
        assert(forall|j: int| 0 <= j < digs.len() ==> digs[j] == t@[e + j]);
    }
    let mut suf_digits = true;
    let mut x: usize = 0;
    let mut j: usize = e;
    while j < dig_end
        invariant
            e <= j <= dig_end <= n,
            n == t@.len(),
            digs.len() == dig_end - e,
            forall|q: int| 0 <= q < digs.len() ==> digs[q] == t@[e + q],
            suf_digits == all_digit_bytes(digs.take(j - e)),
            suf_digits ==> x == digits_val(digs.take(j - e)) % 4,
            x < 4,
        decreases dig_end - j,
    {
        let b = t[j];
        proof {
            let seen = digs.take(j - e);
            let seen2 = digs.take(j + 1 - e);
            assert(seen2.drop_last() =~= seen);
            assert(seen2.last() == t@[j as int]);
        }
        if b >= 48 && b <= 57 {
            if suf_digits {
                let d = (b - 48) as usize;
                proof {
                    let seen = digs.take(j - e);
                    let v = digits_val(seen);
                    lemma_mod_multiples_vanish(10 * ((v / 4) as int), ((v % 4) * 10 + d) as int, 4);
                    assert(v * 10 + d == 4 * (10 * (v / 4)) + ((v % 4) * 10 + d)) by (nonlinear_arith);
                }
                x = (x * 10 + d) % 4;
            }
        } else {
            suf_digits = false;
        }
        j += 1;
    }
    proof {
        assert(digs.take(digs.len() as int) =~= digs);
    }
    let x_final: usize = if dig_end > e && suf_digits {
        x
    } else {
        1
    };
    let code: usize = if prime {
        (4 - x_final) % 4
    } else {
        x_final
    };
    let dir = if code == 0 {
        Direction::NoTurn
    } else if code == 1 {
        Direction::Clockwise
    } else if code == 2 {
        Direction::Half
    } else {
        Direction::CounterClockwise
    };
    Ok(Move { face, dir, depth: pv_final - 1, wide })
}

/// The length of the run of non-whitespace bytes at the start of the string.
pub open spec fn word_run(s: Seq<u8>) -> nat
    decreases s.len(),
{
    if s.len() == 0 {
        0
    } else if is_ws_byte(s[0]) {
        0
    } else {
        1 + word_run(s.drop_first())
    }
}

proof fn lemma_word_run_le(s: Seq<u8>)
    ensures
        word_run(s) <= s.len(),
    decreases s.len(),
{
    if s.len() > 0 && !is_ws_byte(s[0]) {
        lemma_word_run_le(s.drop_first());
    }
}

proof fn lemma_word_run_is(s: Seq<u8>, l: int)
    requires
        0 <= l <= s.len(),
        forall|k: int| 0 <= k < l ==> !is_ws_byte(#[trigger] s[k]),
        l < s.len() ==> is_ws_byte(s[l]),
    ensures
        word_run(s) == l,
    decreases s.len(),
{
    if s.len() == 0 {
    } else if l == 0 {
        if !is_ws_byte(s[0]) {
            assert(false);
        }
    } else {
        assert(!is_ws_byte(s[0]));
        let t = s.drop_first();
        assert(forall|k: int| 0 <= k < l - 1 ==> !is_ws_byte(#[trigger] t[k]));
        lemma_word_run_is(t, l - 1);
    }
}

/// The scramble text split into its whitespace-delimited tokens.
pub open spec fn tokens_of(s: Seq<u8>) -> Seq<Seq<u8>>
    decreases s.len(),
    via tokens_of_dec
{
    if s.len() == 0 {
        Seq::empty()
    } else if is_ws_byte(s[0]) {
        tokens_of(s.drop_first())
    } else {
        seq![s.take(word_run(s) as int)] + tokens_of(s.skip(word_run(s) as int))
    }
}

#[via_fn]
proof fn tokens_of_dec(s: Seq<u8>) {
    if s.len() > 0 && !is_ws_byte(s[0]) {
        lemma_word_run_le(s);
        assert(word_run(s) >= 1);
    }
}

/// The views of the token vectors produced by `tokenize`.
pub open spec fn token_views(ts: Seq<Vec<u8>>) -> Seq<Seq<u8>> {
    Seq::new(ts.len(), |i: int| ts[i]@)
}

/// Splits the scramble text on ASCII whitespace.
pub(crate) fn tokenize(s: &[u8]) -> (r: Vec<Vec<u8>>)
    ensures
        token_views(r@) == tokens_of(s@),
{
    let n = s.len();
    let mut toks: Vec<Vec<u8>> = Vec::new();
    let mut pos: usize = 0;
    proof {
        assert(s@.skip(0) =~= s@);
        assert(token_views(toks@) + tokens_of(s@) =~= tokens_of(s@));
    }
    while pos < n
        invariant
            0 <= pos <= n,
            n == s@.len(),
            tokens_of(s@) == token_views(toks@) + tokens_of(s@.skip(pos as int)),
        decreases n - pos,
    {
        let b = s[pos];
        if b == 32 || b == 9 || b == 10 || b == 12 || b == 13 {
            proof {
                assert(s@.skip(pos as int).drop_first() =~= s@.skip(pos + 1));
            }
            pos += 1;
        } else {
            let start = pos;
            let mut tok: Vec<u8> = Vec::new();
            while pos < n && !(s[pos] == 32 || s[pos] == 9 || s[pos] == 10 || s[pos] == 12 || s[pos]
                == 13)
                invariant
                    start <= pos <= n,
                    n == s@.len(),
                    forall|k: int| start <= k < pos ==> !is_ws_byte(#[trigger] s@[k]),
                    tok@ =~= s@.subrange(start as int, pos as int),
                decreases n - pos,
            {
                let c = s[pos];
                tok.push(c);
                proof {
                    assert(tok@ =~= s@.subrange(start as int, pos + 1));
                }
                pos += 1;
            }
            proof {
                let rest = s@.skip(start as int);
                assert(forall|k: int| 0 <= k < pos - start ==> !is_ws_byte(#[trigger] rest[k]));
                lemma_word_run_is(rest, pos - start);
                assert(rest.take(pos - start) =~= s@.subrange(start as int, pos as int));
                assert(rest.skip(pos - start) =~= s@.skip(pos as int));
                assert(tokens_of(rest) == seq![tok@] + tokens_of(s@.skip(pos as int)));
            }
            let ghost toks0 = toks@;
            toks.push(tok);
            proof {
                assert(token_views(toks@) =~= token_views(toks0) + seq![tok@]);
                assert(token_views(toks0) + (seq![tok@] + tokens_of(s@.skip(pos as int)))
                    =~= token_views(toks@) + tokens_of(s@.skip(pos as int)));
            }
        }
    }
    proof {
        assert(s@.skip(n as int) =~= Seq::<u8>::empty());
        assert(tokens_of(s@) =~= token_views(toks@));
    }
    toks
}

} // verus!
