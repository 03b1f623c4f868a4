use vstd::prelude::*;
use vstd::arithmetic::div_mod::lemma_fundamental_div_mod;
use vstd::string::*;
use crate::HEX_SIZE;
use crate::errors::GraphError;
use crate::text::str_chars;

verus! {

/// A binary value attached to a vertex.  Values of at most
/// [`HEX_SIZE`] bytes live inline in `Bytes` (a fixed buffer and the
/// used length); longer values fall back to the heap in `Vector`.
/// Two values are equal exactly when they hold the same byte sequence,
/// whichever variant holds it.
#[derive(Debug)]
pub enum Hex {
    /// Heap-allocated payload, for values longer than [`HEX_SIZE`].
    Vector(Vec<u8>),
    /// Inline payload: a fixed buffer and how many of its bytes are used.
    Bytes([u8; HEX_SIZE], usize),
}

impl View for Hex {
    type V = Seq<u8>;

    open spec fn view(&self) -> Seq<u8> {
        match self {
            Hex::Vector(v) => v@,
            Hex::Bytes(a, n) => if *n <= HEX_SIZE {
                a@.take(*n as int)
            } else {
                a@
            },
        }
    }
}

/// Uppercase hexadecimal digit for a value below sixteen.
pub open spec fn hex_digit_char(d: int) -> char {
    if d == 0 {
        '0'
    } else if d == 1 {
        '1'
    } else if d == 2 {
        '2'
    } else if d == 3 {
        '3'
    } else if d == 4 {
        '4'
    } else if d == 5 {
        '5'
    } else if d == 6 {
        '6'
    } else if d == 7 {
        '7'
    } else if d == 8 {
        '8'
    } else if d == 9 {
        '9'
    } else if d == 10 {
        'A'
    } else if d == 11 {
        'B'
    } else if d == 12 {
        'C'
    } else if d == 13 {
        'D'
    } else if d == 14 {
        'E'
    } else {
        'F'
    }
}

/// Accepts both cases when decoding.
pub open spec fn is_hex_digit(c: char) -> bool {
    (48 <= c as u32 && c as u32 <= 57) || (65 <= c as u32 && c as u32 <= 70) || (97 <= c as u32
        && c as u32 <= 102)
}

/// Value of a hexadecimal digit character, either case.
pub open spec fn hex_val(c: char) -> int {
    if 48 <= c as u32 && c as u32 <= 57 {
        c as u32 - 48
    } else if 65 <= c as u32 && c as u32 <= 70 {
        c as u32 - 55
    } else {
        c as u32 - 87
    }
}

/// The two uppercase digits of one byte.
pub open spec fn pair_text(b: u8) -> Seq<char> {
    seq![hex_digit_char(b as int / 16), hex_digit_char(b as int % 16)]
}

/// Canonical text of a non-empty byte sequence: dash-separated pairs.
pub open spec fn hex_text_ne(s: Seq<u8>) -> Seq<char>
    decreases s.len(),
{
    if s.len() <= 1 {
        pair_text(s[0])
    } else {
        pair_text(s[0]) + seq!['-'] + hex_text_ne(s.skip(1))
    }
}

/// Canonical text of any byte sequence; the empty value renders as `--`.
pub open spec fn hex_text(s: Seq<u8>) -> Seq<char> {
    if s.len() == 0 {
        seq!['-', '-']
    } else {
        hex_text_ne(s)
    }
}

/// Decodes dash-separated digit pairs; `None` on any malformed text.
pub open spec fn hex_parse_ne(t: Seq<char>) -> Option<Seq<u8>>
    decreases t.len(),
{
    if t.len() == 2 {
        if is_hex_digit(t[0]) && is_hex_digit(t[1]) {
            Some(seq![(hex_val(t[0]) * 16 + hex_val(t[1])) as u8])
        } else {
            None
        }
    } else if t.len() >= 5 && t[2] == '-' {
        if is_hex_digit(t[0]) && is_hex_digit(t[1]) {
            match hex_parse_ne(t.skip(3)) {
                Some(rest) => Some(seq![(hex_val(t[0]) * 16 + hex_val(t[1])) as u8] + rest),
                None => None,
            }
        } else {
            None
        }
    } else {
        None
    }
}

/// Decodes canonical hex text, `--` standing for the empty value.
pub open spec fn hex_parse(t: Seq<char>) -> Option<Seq<u8>> {
    if t.len() == 2 && t[0] == '-' && t[1] == '-' {
        Some(Seq::<u8>::empty())
    } else {
        hex_parse_ne(t)
    }
}

/// Big-endian bytes of a 64-bit value.
pub open spec fn u64_bytes(x: u64) -> Seq<u8> {
    seq![
        (x >> 56) as u8,
        (x >> 48) as u8,
        (x >> 40) as u8,
        (x >> 32) as u8,
        (x >> 24) as u8,
        (x >> 16) as u8,
        (x >> 8) as u8,
        x as u8,
    ]
}

/// The 64-bit value read back from eight big-endian bytes.
pub open spec fn u64_of(s: Seq<u8>) -> u64
    recommends
        s.len() == 8,
{
    ((s[0] as u64) << 56) | ((s[1] as u64) << 48) | ((s[2] as u64) << 40) | ((s[3] as u64) << 32)
        | ((s[4] as u64) << 24) | ((s[5] as u64) << 16) | ((s[6] as u64) << 8) | (s[7] as u64)
}

proof fn lemma_hex_digit_rt(d: int)
    requires
        0 <= d < 16,
    ensures
        is_hex_digit(hex_digit_char(d)),
        hex_val(hex_digit_char(d)) == d,
        hex_digit_char(d) != '-',
{
}

proof fn lemma_pair_rt(b: u8)
    ensures
        pair_text(b).len() == 2,
        is_hex_digit(pair_text(b)[0]),
        is_hex_digit(pair_text(b)[1]),
        pair_text(b)[0] != '-',
        hex_val(pair_text(b)[0]) * 16 + hex_val(pair_text(b)[1]) == b,
{
    lemma_hex_digit_rt(b as int / 16);
    lemma_hex_digit_rt(b as int % 16);
    lemma_fundamental_div_mod(b as int, 16);
}

proof fn lemma_hex_text_ne_shape(s: Seq<u8>)
    requires
        s.len() >= 1,
    ensures
        hex_text_ne(s).len() == 3 * s.len() - 1,
        is_hex_digit(hex_text_ne(s)[0]),
        hex_text_ne(s)[0] != '-',
    decreases s.len(),
{
    lemma_pair_rt(s[0]);
    if s.len() > 1 {
        lemma_hex_text_ne_shape(s.skip(1));
        let t = pair_text(s[0]) + seq!['-'] + hex_text_ne(s.skip(1));
        assert(hex_text_ne(s) == t);
        assert(t.len() == 3 + hex_text_ne(s.skip(1)).len());
        assert(hex_text_ne(s.skip(1)).len() == 3 * s.skip(1).len() - 1);
        assert(t[0] == pair_text(s[0])[0]);
    }
}

proof fn lemma_hex_round_trip_ne(s: Seq<u8>)
    requires
        s.len() >= 1,
    ensures
        hex_parse_ne(hex_text_ne(s)) == Some(s),
    decreases s.len(),
{
    let t = hex_text_ne(s);
    lemma_pair_rt(s[0]);
    if s.len() == 1 {
        assert(t.len() == 2);
        assert(seq![(hex_val(t[0]) * 16 + hex_val(t[1])) as u8] =~= s);
    } else {
        lemma_hex_text_ne_shape(s.skip(1));
        assert(t.len() >= 5);
        assert(t[2] == '-');
        assert(t.skip(3) =~= hex_text_ne(s.skip(1)));
        lemma_hex_round_trip_ne(s.skip(1));
        assert(seq![(hex_val(t[0]) * 16 + hex_val(t[1])) as u8] + s.skip(1) =~= s);
    }
}

/// Encoding any byte sequence to canonical text and decoding it again
/// gives back the same bytes.
pub proof fn lemma_hex_round_trip(s: Seq<u8>)
    ensures
        hex_parse(hex_text(s)) == Some(s),
{
    if s.len() == 0 {
        assert(hex_text(s) == seq!['-', '-']);
        assert(s =~= Seq::<u8>::empty());
    } else {
        lemma_hex_text_ne_shape(s);
        lemma_hex_round_trip_ne(s);
    }
}

/// Reading a value's big-endian bytes back gives the value.
pub proof fn lemma_u64_round_trip(x: u64)
    ensures
        u64_of(u64_bytes(x)) == x,
{
    let s = u64_bytes(x);
    assert(((((x >> 56) as u8) as u64) << 56) | ((((x >> 48) as u8) as u64) << 48) | ((((x
        >> 40) as u8) as u64) << 40) | ((((x >> 32) as u8) as u64) << 32) | ((((x
        >> 24) as u8) as u64) << 24) | ((((x >> 16) as u8) as u64) << 16) | ((((x
        >> 8) as u8) as u64) << 8) | ((x as u8) as u64) == x) by (bit_vector);
}

fn byte_at_or(v: &Vec<u8>, i: usize) -> (r: u8)
    ensures
        r == if i < v@.len() {
            v@[i as int]
        } else {
            0u8
        },
{
    if i < v.len() {
        v[i]
    } else {
        0
    }
}

impl Hex {
    /// Inline buffers never claim more bytes than they have.
    pub open spec fn wf(&self) -> bool {
        match self {
            Hex::Vector(_) => true,
            Hex::Bytes(_, n) => *n <= HEX_SIZE,
        }
    }

    /// The empty value.
    pub fn empty() -> (r: Hex)
        ensures
            r@ =~= Seq::<u8>::empty(),
            r.wf(),
    {
        Hex::Bytes([0; HEX_SIZE], 0)
    }

    /// Wraps a byte vector, choosing the inline variant whenever the
    /// bytes fit.
    pub fn from_vec(v: Vec<u8>) -> (r: Hex)
        ensures
            r@ == v@,
            r.wf(),
    {
        if v.len() <= HEX_SIZE {
            let n = v.len();
            let a: [u8; HEX_SIZE] = [
                byte_at_or(&v, 0),
                byte_at_or(&v, 1),
                byte_at_or(&v, 2),
                byte_at_or(&v, 3),
                byte_at_or(&v, 4),
                byte_at_or(&v, 5),
                byte_at_or(&v, 6),
                byte_at_or(&v, 7),
            ];
            let r = Hex::Bytes(a, n);
            proof {
                assert(r@ =~= v@);
            }
            r
        } else {
            Hex::Vector(v)
        }
    }

    /// Encodes a 64-bit unsigned value as its eight big-endian bytes.
    pub fn from_u64(x: u64) -> (r: Hex)
        ensures
            r@ == u64_bytes(x),
            r@.len() == 8,
            r.wf(),
    {
        let mut v: Vec<u8> = Vec::new();
        v.push(#[verifier::truncate] ((x >> 56) as u8));
        v.push(#[verifier::truncate] ((x >> 48) as u8));
        v.push(#[verifier::truncate] ((x >> 40) as u8));
        v.push(#[verifier::truncate] ((x >> 32) as u8));
        v.push(#[verifier::truncate] ((x >> 24) as u8));
        v.push(#[verifier::truncate] ((x >> 16) as u8));
        v.push(#[verifier::truncate] ((x >> 8) as u8));
        v.push(#[verifier::truncate] (x as u8));
        proof {
            assert(v@ =~= u64_bytes(x));
        }
        Hex::from_vec(v)
    }

    /// Encodes a 64-bit signed value as its eight big-endian bytes.
    pub fn from_i64(x: i64) -> (r: Hex)
        ensures
            r@ == u64_bytes(x as u64),
            r@.len() == 8,
            r.wf(),
    {
        Hex::from_u64(#[verifier::truncate] (x as u64))
    }

    /// How many bytes the value holds.
    pub fn len(&self) -> (r: usize)
        requires
            self.wf(),
        ensures
            r == self@.len(),
    {
        match self {
            Hex::Vector(v) => v.len(),
            Hex::Bytes(_, n) => *n,
        }
    }

    /// Whether the value holds no bytes.
    pub fn is_empty(&self) -> (r: bool)
        requires
            self.wf(),
        ensures
            r == (self@.len() == 0),
    {
        self.len() == 0
    }

    /// One byte of the value.
    pub fn get(&self, i: usize) -> (r: u8)
        requires
            self.wf(),
            i < self@.len(),
        ensures
            r == self@[i as int],
    {
        match self {
            Hex::Vector(v) => v[i],
            Hex::Bytes(a, _) => a[i],
        }
    }

    /// All bytes of the value, as a fresh vector.
    pub fn to_vec(&self) -> (r: Vec<u8>)
        requires
            self.wf(),
        ensures
            r@ == self@,
    {
        let n = self.len();
        let mut out: Vec<u8> = Vec::new();
        let mut i: usize = 0;
        while i < n
            invariant
                i <= n,
                n == self@.len(),
                self.wf(),
                out@ == self@.take(i as int),
            decreases n - i,
        {
            out.push(self.get(i));
            i = i + 1;
            proof {
                assert(out@ =~= self@.take(i as int));
            }
        }
        proof {
            assert(out@ =~= self@);
        }
        out
    }

    /// A copy holding the same bytes.
    pub fn dup(&self) -> (r: Hex)
        requires
            self.wf(),
        ensures
            r@ == self@,
            r.wf(),
    {
        Hex::from_vec(self.to_vec())
    }

    /// Recovers a 64-bit unsigned value; the stored length must be
    /// exactly eight bytes, else `FormatMismatch`.
    pub fn to_u64(&self) -> (r: Result<u64, GraphError>)
        requires
            self.wf(),
        ensures
            self@.len() == 8 ==> r == Ok::<u64, GraphError>(u64_of(self@)),
            self@.len() != 8 ==> r == Err::<u64, GraphError>(GraphError::FormatMismatch),
    {
        if self.len() != 8 {
            return Err(GraphError::FormatMismatch);
        }
        Ok(
            ((self.get(0) as u64) << 56) | ((self.get(1) as u64) << 48) | ((self.get(
                2,
            ) as u64) << 40) | ((self.get(3) as u64) << 32) | ((self.get(4) as u64) << 24) | ((
            self.get(5) as u64) << 16) | ((self.get(6) as u64) << 8) | (self.get(7) as u64),
        )
    }

    /// Recovers a 64-bit signed value; the stored length must be
    /// exactly eight bytes, else `FormatMismatch`.
    pub fn to_i64(&self) -> (r: Result<i64, GraphError>)
        requires
            self.wf(),
        ensures
            self@.len() == 8 ==> r == Ok::<i64, GraphError>(u64_of(self@) as i64),
            self@.len() != 8 ==> r == Err::<i64, GraphError>(GraphError::FormatMismatch),
    {
        match self.to_u64() {
            Ok(x) => Ok(#[verifier::truncate] (x as i64)),
            Err(e) => Err(e),
        }
    }

    /// Canonical text: dash-separated uppercase pairs, `--` when empty.
    pub fn print(&self) -> (r: String)
        requires
            self.wf(),
        ensures
            r@ == hex_text(self@),
    {
        let n = self.len();
        if n == 0 {
            let r = String::from_str("--");
            proof {
                reveal_strlit("--");
                assert(r@ =~= seq!['-', '-']);
            }
            return r;
        }
        let mut out = String::new();
        push_pair(&mut out, self.get(0));
        let mut i: usize = 1;
        while i < n
            invariant
                1 <= i <= n,
                n == self@.len(),
                self.wf(),
                out@ + hex_glue(self@.skip(i as int)) == hex_text_ne(self@),
            decreases n - i,
        {
            let ghost before = self@.skip(i as int);
            out.push('-');
            push_pair(&mut out, self.get(i));
            i = i + 1;
            proof {
                assert(before[0] == self@[i - 1]);
                assert(before.skip(1) =~= self@.skip(i as int));
                if before.len() <= 1 {
                    assert(hex_glue(before) =~= seq!['-'] + pair_text(before[0]));
                } else {
                    assert(hex_text_ne(before) == pair_text(before[0]) + seq!['-'] + hex_text_ne(
                        before.skip(1),
                    ));
                }
                assert(out@ + hex_glue(self@.skip(i as int)) =~= hex_text_ne(self@));
            }
        }
        proof {
            assert(self@.skip(n as int) =~= Seq::<u8>::empty());
            assert(out@ =~= hex_text_ne(self@));
        }
        out
    }

    /// Decodes canonical hex text into a value; `FormatMismatch` on any
    /// malformed text.
    pub fn parse(s: &str) -> (r: Result<Hex, GraphError>)
        ensures
            ({
                match hex_parse(s@) {
                    Some(b) => r is Ok && r.unwrap()@ == b && r.unwrap().wf(),
                    None => r == Err::<Hex, GraphError>(GraphError::FormatMismatch),
                }
            }),
    {
        let t = str_chars(s);
        let n = t.len();
        match parse_hex_range(&t, 0, n) {
            Some(b) => {
                proof {
                    assert(t@.subrange(0, n as int) =~= s@);
                }
                Ok(Hex::from_vec(b))
            },
            None => {
                proof {
                    assert(t@.subrange(0, n as int) =~= s@);
                }
                Err(GraphError::FormatMismatch)
            },
        }
    }
}

/// The glue text that follows an already-printed prefix: a dash and the
/// rest, or nothing when the rest is empty.
pub open spec fn hex_glue(s: Seq<u8>) -> Seq<char> {
    if s.len() == 0 {
        Seq::<char>::empty()
    } else {
        seq!['-'] + hex_text_ne(s)
    }
}

fn push_pair(out: &mut String, b: u8)
    ensures
        final(out)@ == old(out)@ + pair_text(b),
{
    out.push(hex_digit_exec(b / 16));
    out.push(hex_digit_exec(b % 16));
    proof {
        assert(final(out)@ =~= old(out)@ + pair_text(b));
    }
}

fn hex_digit_exec(d: u8) -> (c: char)
    requires
        d < 16,
    ensures
        c == hex_digit_char(d as int),
{
    if d == 0 {
        '0'
    } else if d == 1 {
        '1'
    } else if d == 2 {
        '2'
    } else if d == 3 {
        '3'
    } else if d == 4 {
        '4'
    } else if d == 5 {
        '5'
    } else if d == 6 {
        '6'
    } else if d == 7 {
        '7'
    } else if d == 8 {
        '8'
    } else if d == 9 {
        '9'
    } else if d == 10 {
        'A'
    } else if d == 11 {
        'B'
    } else if d == 12 {
        'C'
    } else if d == 13 {
        'D'
    } else if d == 14 {
        'E'
    } else {
        'F'
    }
}

fn hex_digit_test(c: char) -> (r: bool)
    ensures
        r == is_hex_digit(c),
{
    (48 <= c as u32 && c as u32 <= 57) || (65 <= c as u32 && c as u32 <= 70) || (97 <= c as u32
        && c as u32 <= 102)
}

fn hex_val_exec(c: char) -> (r: u8)
    requires
        is_hex_digit(c),
    ensures
        r as int == hex_val(c),
{
    let x = c as u32;
    if 48 <= x && x <= 57 {
        (x - 48) as u8
    } else if 65 <= x && x <= 70 {
        (x - 55) as u8
    } else {
        (x - 87) as u8
    }
}

/// Joins an already-decoded prefix onto the rest of a decode.
pub open spec fn opt_prepend(p: Seq<u8>, o: Option<Seq<u8>>) -> Option<Seq<u8>> {
    match o {
        Some(r) => Some(p + r),
        None => None,
    }
}

/// Decodes the characters between `from` and `to` as hex text.
pub fn parse_hex_range(t: &Vec<char>, from: usize, to: usize) -> (r: Option<Vec<u8>>)
    requires
        from <= to <= t@.len(),
    ensures
        ({
            let s = t@.subrange(from as int, to as int);
            match hex_parse(s) {
                Some(b) => r is Some && r->Some_0@ == b,
                None => r is None,
            }
        }),
{
    let ghost s = t@.subrange(from as int, to as int);
    if to - from == 2 && t[from] == '-' && t[from + 1] == '-' {
        let out: Vec<u8> = Vec::new();
        return Some(out);
    }
    let mut out: Vec<u8> = Vec::new();
    let mut i: usize = from;
    proof {
        assert(s.skip(0) =~= s);
        if hex_parse_ne(s) is Some {
            assert(Seq::<u8>::empty() + hex_parse_ne(s)->Some_0 =~= hex_parse_ne(s)->Some_0);
        }
    }
    loop
        invariant
            from <= i <= to <= t@.len(),
            s == t@.subrange(from as int, to as int),
            !(s.len() == 2 && s[0] == '-' && s[1] == '-'),
            hex_parse_ne(s) == opt_prepend(out@, hex_parse_ne(s.skip(i - from))),
        decreases to - i,
    {
        let ghost rem = s.skip(i - from);
        if to - i < 2 {
            proof {
                assert(hex_parse_ne(rem) is None);
            }
            return None;
        }
        let c0 = t[i];
        let c1 = t[i + 1];
        proof {
            assert(rem[0] == c0 && rem[1] == c1);
        }
        if !(hex_digit_test(c0) && hex_digit_test(c1)) {
            proof {
                assert(hex_parse_ne(rem) is None);
            }
            return None;
        }
        let b = hex_val_exec(c0) * 16 + hex_val_exec(c1);
        out.push(b);
        if i + 2 == to {
            proof {
                assert(rem.len() == 2);
                assert(hex_parse_ne(rem) == Some(seq![b]));
                assert(out@.drop_last() + seq![b] =~= out@);
            }
            return Some(out);
        }
        let c2 = t[i + 2];
        proof {
            assert(rem[2] == c2);
        }
        if c2 != '-' {
            proof {
                assert(hex_parse_ne(rem) is None);
            }
            return None;
        }
        proof {
            assert(rem.skip(3) =~= s.skip(i - from + 3));
            assert(hex_parse_ne(rem) == opt_prepend(
                seq![b],
                hex_parse_ne(s.skip(i - from + 3)),
            ));
            if hex_parse_ne(s.skip(i - from + 3)) is Some {
                assert(out@.drop_last() + (seq![b] + hex_parse_ne(
                    s.skip(i - from + 3),
                )->Some_0) =~= out@ + hex_parse_ne(s.skip(i - from + 3))->Some_0);
            }
        }
        i = i + 3;
    }
}


impl Hex {
    /// Whether two values hold the same bytes, whichever variant holds
    /// them.
    pub fn same(&self, other: &Hex) -> (r: bool)
        requires
            self.wf(),
            other.wf(),
        ensures
            r == (self@ == other@),
    {
        let n = self.len();
        if n != other.len() {
            return false;
        }
        let mut i: usize = 0;
        while i < n
            invariant
                i <= n,
                self.wf(),
                other.wf(),
                n == self@.len(),
                n == other@.len(),
                forall|k: int| 0 <= k < i ==> self@[k] == other@[k],
            decreases n - i,
        {
            if self.get(i) != other.get(i) {
                return false;
            }
            i = i + 1;
        }
        proof {
            assert(self@ =~= other@);
        }
        true
    }
}


/// Big-endian bytes of a 32-bit value.
pub open spec fn u32_bytes(x: u32) -> Seq<u8> {
    seq![(x >> 24) as u8, (x >> 16) as u8, (x >> 8) as u8, x as u8]
}

/// The 32-bit value read back from four big-endian bytes.
pub open spec fn u32_of(s: Seq<u8>) -> u32
    recommends
        s.len() == 4,
{
    ((s[0] as u32) << 24) | ((s[1] as u32) << 16) | ((s[2] as u32) << 8) | (s[3] as u32)
}

/// Reading a 32-bit value's big-endian bytes back gives the value.
pub proof fn lemma_u32_round_trip(x: u32)
    ensures
        u32_of(u32_bytes(x)) == x,
{
    assert(((((x >> 24) as u8) as u32) << 24) | ((((x >> 16) as u8) as u32) << 16) | ((((x
        >> 8) as u8) as u32) << 8) | ((x as u8) as u32) == x) by (bit_vector);
}

impl Hex {
    /// Encodes a 32-bit unsigned value as its four big-endian bytes.
    pub fn from_u32(x: u32) -> (r: Hex)
        ensures
            r@ == u32_bytes(x),
            r@.len() == 4,
            r.wf(),
    {
        let mut v: Vec<u8> = Vec::new();
        v.push(#[verifier::truncate] ((x >> 24) as u8));
        v.push(#[verifier::truncate] ((x >> 16) as u8));
        v.push(#[verifier::truncate] ((x >> 8) as u8));
        v.push(#[verifier::truncate] (x as u8));
        proof {
            assert(v@ =~= u32_bytes(x));
        }
        Hex::from_vec(v)
    }

    /// Encodes a 32-bit signed value as its four big-endian bytes.
    pub fn from_i32(x: i32) -> (r: Hex)
        ensures
            r@ == u32_bytes(x as u32),
            r@.len() == 4,
            r.wf(),
    {
        Hex::from_u32(#[verifier::truncate] (x as u32))
    }

    /// Recovers a 32-bit unsigned value; the stored length must be
    /// exactly four bytes, else `FormatMismatch`.
    pub fn to_u32(&self) -> (r: Result<u32, GraphError>)
        requires
            self.wf(),
        ensures
            self@.len() == 4 ==> r == Ok::<u32, GraphError>(u32_of(self@)),
            self@.len() != 4 ==> r == Err::<u32, GraphError>(GraphError::FormatMismatch),
    {
        if self.len() != 4 {
            return Err(GraphError::FormatMismatch);
        }
        Ok(
            ((self.get(0) as u32) << 24) | ((self.get(1) as u32) << 16) | ((self.get(
                2,
            ) as u32) << 8) | (self.get(3) as u32),
        )
    }

    /// Recovers a 32-bit signed value; the stored length must be
    /// exactly four bytes, else `FormatMismatch`.
    pub fn to_i32(&self) -> (r: Result<i32, GraphError>)
        requires
            self.wf(),
        ensures
            self@.len() == 4 ==> r == Ok::<i32, GraphError>(u32_of(self@) as i32),
            self@.len() != 4 ==> r == Err::<i32, GraphError>(GraphError::FormatMismatch),
    {
        match self.to_u32() {
            Ok(x) => Ok(#[verifier::truncate] (x as i32)),
            Err(e) => Err(e),
        }
    }
}

} // verus!
