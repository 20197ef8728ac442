//! Tile keys and their canonical textual form.
//!
//! A tile is identified by the triple (tx, ty, zoom): tx and ty are unsigned
//! 64-bit tile coordinates and zoom is a decimal level in 0..=99. The
//! canonical filename of a tile is 34 characters: 16 zero-padded lowercase
//! hex digits of tx, 16 of ty, then 2 zero-padded decimal digits of zoom.
//! Decoding accepts hex digits of either case; any name that does not match
//! the grammar is foreign and never enters the cache.

use vstd::prelude::*;
use vstd::string::StrSliceExecFns;
use vstd::string::StringExecFns;

use crate::CacheError;

verus! {

/// The identifier of a map tile: x and y position in the tile grid, and the
/// zoom level.
#[derive(Clone, Copy, Debug, PartialEq, Eq, Structural)]
pub struct TileKey {
    pub tx: u64,
    pub ty: u64,
    pub zoom: u8,
}

impl TileKey {
    /// A key is well formed when its zoom level has at most two decimal
    /// digits; tx and ty always fit in 16 hex digits.
    pub open spec fn wf(self) -> bool {
        self.zoom <= 99
    }

    /// Builds a key, rejecting a zoom level outside the encodable range.
    pub fn new(tx: u64, ty: u64, zoom: u8) -> (r: Result<TileKey, CacheError>)
        ensures
            match r {
                Ok(k) => k == (TileKey { tx, ty, zoom }) && k.wf(),
                Err(e) => e == CacheError::InvalidCoordinate && zoom > 99,
            },
    {
        if zoom > 99 {
            Err(CacheError::InvalidCoordinate)
        } else {
            Ok(TileKey { tx, ty, zoom })
        }
    }
}

/// The character standing for one digit value, 0..=15; lowercase for 10..=15.
pub open spec fn digit_char(d: int) -> char {
    if d == 0 {
        '0'
    } else if d == 1 {
        '1'
    } else if d == 2 {
        '2'
    } else if d == 3 {
        '3'
    } else if d == 4 {
        '4'
    } else if d == 5 {
        '5'
    } else if d == 6 {
        '6'
    } else if d == 7 {
        '7'
    } else if d == 8 {
        '8'
    } else if d == 9 {
        '9'
    } else if d == 10 {
        'a'
    } else if d == 11 {
        'b'
    } else if d == 12 {
        'c'
    } else if d == 13 {
        'd'
    } else if d == 14 {
        'e'
    } else {
        'f'
    }
}

pub open spec fn is_dec_digit(c: char) -> bool {
    '0' <= c && c <= '9'
}

pub open spec fn is_hex_digit(c: char) -> bool {
    ||| is_dec_digit(c)
    ||| ('a' <= c && c <= 'f')
    ||| ('A' <= c && c <= 'F')
}

/// The value of one hex digit character, either case.
pub open spec fn digit_value(c: char) -> int {
    if is_dec_digit(c) {
        c as int - '0' as int
    } else if 'a' <= c && c <= 'f' {
        10 + c as int - 'a' as int
    } else {
        10 + c as int - 'A' as int
    }
}

/// The last `n` base-`base` digits of `v`, most significant first.
pub open spec fn radix_str(v: int, n: nat, base: int) -> Seq<char>
    decreases n,
{
    if n == 0 {
        Seq::empty()
    } else {
        radix_str(v / base, (n - 1) as nat, base).push(digit_char(v % base))
    }
}

/// The canonical filename of a key: 16 hex digits of tx, 16 hex digits of
/// ty, 2 decimal digits of zoom.
pub open spec fn key_name(k: TileKey) -> Seq<char> {
    radix_str(k.tx as int, 16, 16) + radix_str(k.ty as int, 16, 16) + radix_str(
        k.zoom as int,
        2,
        10,
    )
}

/// Whether a filename matches the cache-entry grammar: exactly 34
/// characters, 32 hex digits then 2 decimal digits.
pub open spec fn name_matches(s: Seq<char>) -> bool {
    &&& s.len() == 34
    &&& forall|i: int| 0 <= i < 32 ==> is_hex_digit(#[trigger] s[i])
    &&& forall|i: int| 32 <= i < 34 ==> is_dec_digit(#[trigger] s[i])
}

/// The value of a digit string read in base `base`, most significant first.
pub open spec fn radix_val(s: Seq<char>, base: int) -> int
    decreases s.len(),
{
    if s.len() == 0 {
        0
    } else {
        radix_val(s.drop_last(), base) * base + digit_value(s.last())
    }
}

/// The key a grammar-matching filename stands for.
pub open spec fn decoded_key(s: Seq<char>) -> TileKey {
    TileKey {
        tx: radix_val(s.subrange(0, 16), 16) as u64,
        ty: radix_val(s.subrange(16, 32), 16) as u64,
        zoom: radix_val(s.subrange(32, 34), 10) as u8,
    }
}

/// `base` to the power `n`.
pub open spec fn pow(base: int, n: nat) -> int
    decreases n,
{
    if n == 0 {
        1
    } else {
        base * pow(base, (n - 1) as nat)
    }
}

/// Every digit value below 16 reads back as itself, and its character is a
/// hex digit; below 10 it is a decimal digit.
proof fn lemma_digit_char_value(d: int)
    requires
        0 <= d < 16,
    ensures
        digit_value(digit_char(d)) == d,
        is_hex_digit(digit_char(d)),
        d < 10 ==> is_dec_digit(digit_char(d)),
{
}

proof fn lemma_radix_str_len(v: int, n: nat, base: int)
    requires
        base >= 1,
    ensures
        radix_str(v, n, base).len() == n,
    decreases n,
{
    if n > 0 {
        lemma_radix_str_len(v / base, (n - 1) as nat, base);
    }
}

/// For a nonnegative value, every character of its digit string is a hex
/// digit, and a decimal digit when the base is at most 10.
proof fn lemma_radix_str_digits(v: int, n: nat, base: int)
    requires
        v >= 0,
        2 <= base <= 16,
    ensures
        forall|i: int|
            0 <= i < radix_str(v, n, base).len() ==> is_hex_digit(
                #[trigger] radix_str(v, n, base)[i],
            ),
        base <= 10 ==> forall|i: int|
            0 <= i < radix_str(v, n, base).len() ==> is_dec_digit(
                #[trigger] radix_str(v, n, base)[i],
            ),
    decreases n,
{
    if n > 0 {
        lemma_radix_str_digits(v / base, (n - 1) as nat, base);
        lemma_radix_str_len(v / base, (n - 1) as nat, base);
        lemma_digit_char_value(v % base);
        assert(0 <= v % base < base);
        let s = radix_str(v, n, base);
        let prefix = radix_str(v / base, (n - 1) as nat, base);
        assert forall|i: int| 0 <= i < s.len() implies is_hex_digit(#[trigger] s[i]) by {
            if i < prefix.len() {
                assert(s[i] == prefix[i]);
            } else {
                assert(s[i] == digit_char(v % base));
            }
        }
        if base <= 10 {
            assert forall|i: int| 0 <= i < s.len() implies is_dec_digit(#[trigger] s[i]) by {
                if i < prefix.len() {
                    assert(s[i] == prefix[i]);
                } else {
                    assert(s[i] == digit_char(v % base));
                }
            }
        }
    }
}

/// Writing a value below `base^n` as `n` digits and reading the digits back
/// returns the value.
proof fn lemma_radix_round_trip(v: int, n: nat, base: int)
    requires
        2 <= base <= 16,
        0 <= v < pow(base, n),
    ensures
        radix_val(radix_str(v, n, base), base) == v,
    decreases n,
{
    if n == 0 {
        assert(pow(base, 0) == 1);
    } else {
        let prefix = radix_str(v / base, (n - 1) as nat, base);
        let s = radix_str(v, n, base);
        lemma_radix_str_len(v / base, (n - 1) as nat, base);
        assert(s == prefix.push(digit_char(v % base)));
        assert(s.drop_last() =~= prefix);
        assert(v / base < pow(base, (n - 1) as nat) && v / base >= 0) by (nonlinear_arith)
            requires
                base >= 2,
                0 <= v < pow(base, n),
                pow(base, n) == base * pow(base, (n - 1) as nat),
        {}
        lemma_radix_round_trip(v / base, (n - 1) as nat, base);
        lemma_digit_char_value(v % base);
        assert(radix_val(s, base) == (v / base) * base + v % base);
        assert((v / base) * base + v % base == v) by (nonlinear_arith)
            requires
                base >= 2,
                v >= 0,
        {}
    }
}

/// A digit string over digits below `base` reads to a value in
/// `0 .. base^len`.
proof fn lemma_radix_val_bound(s: Seq<char>, base: int)
    requires
        2 <= base <= 16,
        forall|i: int| 0 <= i < s.len() ==> is_hex_digit(#[trigger] s[i]),
        base == 10 ==> forall|i: int| 0 <= i < s.len() ==> is_dec_digit(#[trigger] s[i]),
        base == 10 || base == 16,
    ensures
        0 <= radix_val(s, base) < pow(base, s.len()),
    decreases s.len(),
{
    if s.len() == 0 {
    } else {
        let prefix = s.drop_last();
        assert(forall|i: int| 0 <= i < prefix.len() ==> prefix[i] == s[i]);
        lemma_radix_val_bound(prefix, base);
        let c = s.last();
        assert(is_hex_digit(c));
        assert(0 <= digit_value(c) < 16);
        assert(base == 10 ==> is_dec_digit(c));
        assert(0 <= digit_value(c) < base);
        let p = pow(base, prefix.len());
        assert(pow(base, s.len()) == base * p);
        assert(radix_val(prefix, base) * base + digit_value(c) < base * p) by (nonlinear_arith)
            requires
                0 <= radix_val(prefix, base) < p,
                0 <= digit_value(c) < base,
                base >= 2,
        {}
        assert(radix_val(prefix, base) * base + digit_value(c) >= 0) by (nonlinear_arith)
            requires
                0 <= radix_val(prefix, base),
                0 <= digit_value(c),
                base >= 2,
        {}
    }
}

/// The canonical name of a well-formed key matches the grammar and decodes
/// back to the key: encoding and decoding round-trip.
pub proof fn lemma_codec_round_trip(k: TileKey)
    requires
        k.wf(),
    ensures
        name_matches(key_name(k)),
        decoded_key(key_name(k)) == k,
{
    let sx = radix_str(k.tx as int, 16, 16);
    let sy = radix_str(k.ty as int, 16, 16);
    let sz = radix_str(k.zoom as int, 2, 10);
    let s = key_name(k);
    lemma_radix_str_len(k.tx as int, 16, 16);
    lemma_radix_str_len(k.ty as int, 16, 16);
    lemma_radix_str_len(k.zoom as int, 2, 10);
    lemma_radix_str_digits(k.tx as int, 16, 16);
    lemma_radix_str_digits(k.ty as int, 16, 16);
    lemma_radix_str_digits(k.zoom as int, 2, 10);
    assert(s.len() == 34);
    assert forall|i: int| 0 <= i < 32 implies is_hex_digit(#[trigger] s[i]) by {
        if i < 16 {
            assert(s[i] == sx[i]);
        } else {
            assert(s[i] == sy[i - 16]);
        }
    }
    assert forall|i: int| 32 <= i < 34 implies is_dec_digit(#[trigger] s[i]) by {
        assert(s[i] == sz[i - 32]);
    }
    assert(s.subrange(0, 16) =~= sx);
    assert(s.subrange(16, 32) =~= sy);
    assert(s.subrange(32, 34) =~= sz);
    assert(pow(16, 16) == 0x10000000000000000) by {
        reveal_with_fuel(pow, 17);
    }
    assert(pow(10, 2) == 100) by {
        reveal_with_fuel(pow, 3);
    }
    lemma_radix_round_trip(k.tx as int, 16, 16);
    lemma_radix_round_trip(k.ty as int, 16, 16);
    lemma_radix_round_trip(k.zoom as int, 2, 10);
}

/// Appends the character of one digit value to a string.
fn push_digit(s: &mut String, d: u8)
    requires
        d < 16,
    ensures
        final(s)@ == old(s)@.push(digit_char(d as int)),
{
    match d {
        0 => {
            proof { reveal_strlit("0"); }
            s.append("0");
        },
        1 => {
            proof { reveal_strlit("1"); }
            s.append("1");
        },
        2 => {
            proof { reveal_strlit("2"); }
            s.append("2");
        },
        3 => {
            proof { reveal_strlit("3"); }
            s.append("3");
        },
        4 => {
            proof { reveal_strlit("4"); }
            s.append("4");
        },
        5 => {
            proof { reveal_strlit("5"); }
            s.append("5");
        },
        6 => {
            proof { reveal_strlit("6"); }
            s.append("6");
        },
        7 => {
            proof { reveal_strlit("7"); }
            s.append("7");
        },
        8 => {
            proof { reveal_strlit("8"); }
            s.append("8");
        },
        9 => {
            proof { reveal_strlit("9"); }
            s.append("9");
        },
        10 => {
            proof { reveal_strlit("a"); }
            s.append("a");
        },
        11 => {
            proof { reveal_strlit("b"); }
            s.append("b");
        },
        12 => {
            proof { reveal_strlit("c"); }
            s.append("c");
        },
        13 => {
            proof { reveal_strlit("d"); }
            s.append("d");
        },
        14 => {
            proof { reveal_strlit("e"); }
            s.append("e");
        },
        _ => {
            proof { reveal_strlit("f"); }
            s.append("f");
        },
    }
    proof {
        assert(s@ =~= old(s)@.push(digit_char(d as int)));
    }
}

/// Appends the last `n` base-`base` digits of `v`, most significant first.
fn append_radix(s: &mut String, v: u64, n: u8, base: u64)
    requires
        base == 10 || base == 16,
    ensures
        final(s)@ == old(s)@ + radix_str(v as int, n as nat, base as int),
    decreases n,
{
    if n == 0 {
        proof {
            assert(s@ =~= old(s)@ + radix_str(v as int, 0, base as int));
        }
    } else {
        append_radix(s, v / base, n - 1, base);
        push_digit(s, (v % base) as u8);
        proof {
            assert(s@ =~= old(s)@ + radix_str(v as int, n as nat, base as int));
        }
    }
}

/// The canonical filename of a well-formed key.
pub fn encode_key(k: &TileKey) -> (r: String)
    requires
        k.wf(),
    ensures
        r@ == key_name(*k),
{
    let mut s = String::new();
    append_radix(&mut s, k.tx, 16, 16);
    append_radix(&mut s, k.ty, 16, 16);
    append_radix(&mut s, k.zoom as u64, 2, 10);
    proof {
        assert(s@ =~= key_name(*k));
    }
    s
}

/// Encodes a coordinate triple as the canonical filename, rejecting a zoom
/// level outside the encodable range.
pub fn encode(tx: u64, ty: u64, zoom: u8) -> (r: Result<String, CacheError>)
    ensures
        match r {
            Ok(s) => zoom <= 99 && s@ == key_name(TileKey { tx, ty, zoom }),
            Err(e) => e == CacheError::InvalidCoordinate && zoom > 99,
        },
{
    let k = TileKey::new(tx, ty, zoom)?;
    Ok(encode_key(&k))
}

pub proof fn lemma_pow_bounds(base: int, m: nat, n: nat)
    requires
        1 <= base,
        m <= n,
    ensures
        1 <= pow(base, m) <= pow(base, n),
    decreases n,
{
    if n == 0 {
    } else if m == n {
        lemma_pow_bounds(base, 0, (n - 1) as nat);
        assert(pow(base, n) == base * pow(base, (n - 1) as nat));
        assert(base * pow(base, (n - 1) as nat) >= 1) by (nonlinear_arith)
            requires
                base >= 1,
                pow(base, (n - 1) as nat) >= 1,
        {}
    } else {
        lemma_pow_bounds(base, m, (n - 1) as nat);
        assert(base * pow(base, (n - 1) as nat) >= pow(base, (n - 1) as nat)) by (nonlinear_arith)
            requires
                base >= 1,
                pow(base, (n - 1) as nat) >= 1,
        {}
    }
}

/// Whether a character is an acceptable digit: hex when `hex` is set,
/// decimal otherwise.
pub open spec fn digit_ok(c: char, hex: bool) -> bool {
    if hex {
        is_hex_digit(c)
    } else {
        is_dec_digit(c)
    }
}

/// Reads `n` digits of `name` starting at `start` as one base-16 (when
/// `hex`) or base-10 number; `None` when some character is not a digit.
fn parse_digits(name: &str, start: usize, n: usize, hex: bool) -> (r: Option<u64>)
    requires
        name.is_ascii(),
        start + n <= name@.len(),
        start + n <= usize::MAX,
        hex ==> n <= 16,
        !hex ==> n <= 2,
    ensures
        match r {
            Some(v) => {
                &&& forall|j: int| start <= j < start + n ==> digit_ok(#[trigger] name@[j], hex)
                &&& v as int == radix_val(
                    name@.subrange(start as int, (start + n) as int),
                    if hex {
                        16int
                    } else {
                        10int
                    },
                )
            },
            None => exists|j: int| start <= j < start + n && !digit_ok(#[trigger] name@[j], hex),
        },
{
    let base: u64 = if hex {
        16
    } else {
        10
    };
    let ghost basei: int = base as int;
    let mut acc: u64 = 0;
    let mut i: usize = start;
    proof {
        assert(name@.subrange(start as int, start as int) =~= Seq::<char>::empty());
    }
    while i < start + n
        invariant
            name.is_ascii(),
            start <= i <= start + n,
            start + n <= name@.len(),
            start + n <= usize::MAX,
            base == if hex { 16u64 } else { 10u64 },
            basei == base as int,
            hex ==> n <= 16,
            !hex ==> n <= 2,
            forall|j: int| start <= j < i ==> digit_ok(#[trigger] name@[j], hex),
            acc as int == radix_val(name@.subrange(start as int, i as int), basei),
            (acc as int) < pow(basei, (i - start) as nat),
        decreases start + n - i,
    {
        let c = name.get_char(i);
        let d: u64 = if '0' <= c && c <= '9' {
            (c as u32 - 48) as u64
        } else if hex && 'a' <= c && c <= 'f' {
            (c as u32 - 87) as u64
        } else if hex && 'A' <= c && c <= 'F' {
            (c as u32 - 55) as u64
        } else {
            proof {
                assert(!digit_ok(name@[i as int], hex));
            }
            return None;
        };
        proof {
            assert(digit_ok(c, hex));
            assert(d as int == digit_value(c));
            assert(d < base);
            lemma_pow_bounds(basei, (i - start + 1) as nat, n as nat);
            if hex {
                lemma_pow_bounds(16, n as nat, 16);
                assert(pow(16, 16) == 0x10000000000000000) by {
                    reveal_with_fuel(pow, 17);
                }
            } else {
                lemma_pow_bounds(10, n as nat, 2);
                assert(pow(10, 2) == 100) by {
                    reveal_with_fuel(pow, 3);
                }
            }
            assert(pow(basei, (i - start + 1) as nat) == basei * pow(basei, (i - start) as nat));
            assert(acc as int * basei + d < pow(basei, (i - start + 1) as nat)) by (nonlinear_arith)
                requires
                    0 <= (acc as int) < pow(basei, (i - start) as nat),
                    0 <= d as int && (d as int) < basei,
                    basei >= 2,
                    pow(basei, (i - start + 1) as nat) == basei * pow(basei, (i - start) as nat),
            {}
        }
        let next = acc * base + d;
        proof {
            let sub1 = name@.subrange(start as int, i as int + 1);
            assert(sub1.drop_last() =~= name@.subrange(start as int, i as int));
            assert(sub1.last() == name@[i as int]);
            assert(next as int == radix_val(sub1, basei));
        }
        acc = next;
        i = i + 1;
    }
    Some(acc)
}

/// Parses a filename as a tile key: `Some` exactly when the name matches
/// the cache-entry grammar, `None` for any foreign name.
pub fn decode(name: &str) -> (r: Option<TileKey>)
    ensures
        match r {
            Some(k) => name_matches(name@) && k == decoded_key(name@) && k.wf(),
            None => !name_matches(name@),
        },
{
    if !name.is_ascii() {
        proof {
            if name_matches(name@) {
                assert forall|i: int| 0 <= i < name@.len() implies '\0' <= #[trigger] name@[i]
                    <= '\u{7f}' by {
                    if i < 32 {
                        assert(is_hex_digit(name@[i]));
                    } else {
                        assert(is_dec_digit(name@[i]));
                    }
                }
                assert(vstd::string::is_ascii(name));
            }
        }
        return None;
    }
    let n = name.unicode_len();
    if n != 34 {
        return None;
    }
    let tx = match parse_digits(name, 0, 16, true) {
        Some(v) => v,
        None => {
            return None;
        },
    };
    let ty = match parse_digits(name, 16, 16, true) {
        Some(v) => v,
        None => {
            return None;
        },
    };
    let zv = match parse_digits(name, 32, 2, false) {
        Some(v) => v,
        None => {
            return None;
        },
    };
    proof {
        assert(name_matches(name@));
        lemma_radix_val_bound(name@.subrange(32, 34), 10);
        assert(pow(10, 2) == 100) by {
            reveal_with_fuel(pow, 3);
        }
    }
    Some(TileKey { tx, ty, zoom: zv as u8 })
}

/// The number of tiles per axis of the tile grid at zoom level `z`.
pub fn max_tiles(z: u32) -> (r: i32)
    requires
        z <= 30,
    ensures
        r as int == pow(2, z as nat),
{
    let mut r: i32 = 1;
    let mut i: u32 = 0;
    proof {
        assert(pow(2, 30) == 0x40000000) by {
            reveal_with_fuel(pow, 31);
        }
    }
    while i < z
        invariant
            i <= z <= 30,
            r as int == pow(2, i as nat),
            pow(2, 30) == 0x40000000,
        decreases z - i,
    {
        proof {
            lemma_pow_bounds(2, (i + 1) as nat, 30);
        }
        r = r * 2;
        i = i + 1;
    }
    r
}

} // verus!
