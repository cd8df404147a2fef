//! Bytes as text in the alphabet of base64, with padding.
use vstd::arithmetic::div_mod::{
    lemma_div_denominator, lemma_fundamental_div_mod, lemma_fundamental_div_mod_converse,
};
use vstd::prelude::*;

verus! {

/// The symbol for a number below 64.
pub open spec fn symbol(i: int) -> char {
    if i < 26 {
        (65 + i) as char
    } else if i < 52 {
        (71 + i) as char
    } else if i < 62 {
        (i - 4) as char
    } else if i == 62 {
        '+'
    } else {
        '/'
    }
}

/// The number that a symbol stands for; 0 for padding.
pub open spec fn symbol_value(c: char) -> int {
    let n = c as int;
    if 65 <= n <= 90 {
        n - 65
    } else if 97 <= n <= 122 {
        n - 71
    } else if 48 <= n <= 57 {
        n + 4
    } else if c == '+' {
        62
    } else if c == '/' {
        63
    } else {
        0
    }
}

/// Three bytes as one number.
pub open spec fn packed(a: int, b: int, c: int) -> int {
    a * 65536 + b * 256 + c
}

/// The bytes as text: three bytes give four symbols, and padding fills the last four.
pub open spec fn encoded(data: Seq<u8>) -> Seq<char>
    decreases data.len(),
{
    if data.len() == 0 {
        Seq::empty()
    } else if data.len() == 1 {
        let n = packed(data[0] as int, 0, 0);
        seq![symbol(n / 262144), symbol(n / 4096 % 64), '=', '=']
    } else if data.len() == 2 {
        let n = packed(data[0] as int, data[1] as int, 0);
        seq![symbol(n / 262144), symbol(n / 4096 % 64), symbol(n / 64 % 64), '=']
    } else {
        let n = packed(data[0] as int, data[1] as int, data[2] as int);
        seq![symbol(n / 262144), symbol(n / 4096 % 64), symbol(n / 64 % 64), symbol(n % 64)]
            + encoded(data.skip(3))
    }
}

/// The bytes that a text stands for.
pub open spec fn decoded(s: Seq<char>) -> Seq<u8>
    decreases s.len(),
{
    if s.len() < 4 {
        Seq::empty()
    } else {
        let n = symbol_value(s[0]) * 262144 + symbol_value(s[1]) * 4096 + symbol_value(s[2]) * 64
            + symbol_value(s[3]);
        if s[2] == '=' {
            seq![(n / 65536) as u8]
        } else if s[3] == '=' {
            seq![(n / 65536) as u8, (n / 256 % 256) as u8]
        } else {
            seq![(n / 65536) as u8, (n / 256 % 256) as u8, (n % 256) as u8] + decoded(s.skip(4))
        }
    }
}

proof fn lemma_symbol(i: int)
    requires
        0 <= i < 64,
    ensures
        symbol_value(symbol(i)) == i,
        symbol(i) != '=',
{
}

proof fn lemma_packed(a: int, b: int, c: int)
    requires
        0 <= a < 256,
        0 <= b < 256,
        0 <= c < 256,
    ensures
        ({
            let n = packed(a, b, c);
            &&& 0 <= n / 262144 < 64
            &&& n / 262144 * 262144 + n / 4096 % 64 * 4096 + n / 64 % 64 * 64 + n % 64 == n
            &&& n / 65536 == a
            &&& n / 256 % 256 == b
            &&& n % 256 == c
            &&& c == 0 ==> n % 64 == 0
            &&& b == 0 && c == 0 ==> n / 64 % 64 == 0
        }),
{
    let n = packed(a, b, c);
    lemma_div_denominator(n, 64, 64);
    lemma_div_denominator(n, 4096, 64);
    lemma_fundamental_div_mod(n, 64);
    lemma_fundamental_div_mod(n / 64, 64);
    lemma_fundamental_div_mod(n / 4096, 64);
    lemma_fundamental_div_mod_converse(n, 65536, a, b * 256 + c);
    lemma_fundamental_div_mod_converse(n, 256, a * 256 + b, c);
    lemma_fundamental_div_mod_converse(a * 256 + b, 256, a, b);
    if c == 0 {
        lemma_fundamental_div_mod_converse(n, 64, a * 1024 + b * 4, 0);
        if b == 0 {
            lemma_fundamental_div_mod_converse(a * 1024, 64, a * 16, 0);
        }
    }
    lemma_fundamental_div_mod_converse(n, 262144, a / 4, a % 4 * 65536 + b * 256 + c);
}

/// Bytes are read back from their text.
pub proof fn law_encoded_reads_back(data: Seq<u8>)
    ensures
        decoded(encoded(data)) == data,
    decreases data.len(),
{
    let s = encoded(data);
    let a = data[0] as int;
    let b = if data.len() > 1 {
        data[1] as int
    } else {
        0
    };
    let c = if data.len() > 2 {
        data[2] as int
    } else {
        0
    };
    let n = packed(a, b, c);
    if data.len() > 0 {
        lemma_packed(a, b, c);
        lemma_symbol(n / 262144);
        lemma_symbol(n / 4096 % 64);
        lemma_symbol(n / 64 % 64);
        lemma_symbol(n % 64);
        let m = symbol_value(s[0]) * 262144 + symbol_value(s[1]) * 4096 + symbol_value(s[2]) * 64
            + symbol_value(s[3]);
        assert(m == n);
    }
    if data.len() > 2 {
        law_encoded_reads_back(data.skip(3));
        assert(s.skip(4) =~= encoded(data.skip(3)));
    }
    assert(decoded(s) =~= data);
}

/// Every three bytes, or what is left of them at the end, give four symbols.
pub proof fn law_encoded_length(data: Seq<u8>)
    ensures
        encoded(data).len() == (data.len() + 2) / 3 * 4,
    decreases data.len(),
{
    if data.len() > 2 {
        law_encoded_length(data.skip(3));
    }
}

fn symbol_of(i: u32) -> (r: char)
    requires
        i < 64,
    ensures
        r == symbol(i as int),
{
    if i < 26 {
        let b: u8 = (65 + i) as u8;
        b as char
    } else if i < 52 {
        let b: u8 = (71 + i) as u8;
        b as char
    } else if i < 62 {
        let b: u8 = (i - 4) as u8;
        b as char
    } else if i == 62 {
        '+'
    } else {
        '/'
    }
}

/// Writes bytes as text.
pub fn base64_encode(data: &[u8]) -> (r: String)
    ensures
        r@ == encoded(data@),
{
    let mut out = String::new();
    let n: usize = data.len();
    let mut i: usize = 0;
    proof {
        assert(data@.skip(0) =~= data@);
        assert(out@ + encoded(data@) =~= encoded(data@));
    }
    while n - i >= 3
        invariant
            i <= n,
            n == data@.len(),
            out@ + encoded(data@.skip(i as int)) == encoded(data@),
        decreases n - i,
    {
        let ghost before = out@;
        let ghost rest = data@.skip(i as int);
        let x: u32 = data[i] as u32 * 65536 + data[i + 1] as u32 * 256 + data[i + 2] as u32;
        out.push(symbol_of(x / 262144));
        out.push(symbol_of(x / 4096 % 64));
        out.push(symbol_of(x / 64 % 64));
        out.push(symbol_of(x % 64));
        proof {
            let m = packed(rest[0] as int, rest[1] as int, rest[2] as int);
            let four = seq![
                symbol(m / 262144),
                symbol(m / 4096 % 64),
                symbol(m / 64 % 64),
                symbol(m % 64),
            ];
            assert(x == m);
            assert(out@ =~= before + four);
            assert(rest.skip(3) =~= data@.skip(i + 3));
            assert(before + (four + encoded(rest.skip(3))) =~= out@ + encoded(rest.skip(3)));
        }
        i += 3;
    }
    let ghost before = out@;
    let ghost rest = data@.skip(i as int);
    if n - i == 1 {
        let x: u32 = data[i] as u32 * 65536;
        out.push(symbol_of(x / 262144));
        out.push(symbol_of(x / 4096 % 64));
        out.push('=');
        out.push('=');
        proof {
            assert(rest[0] == data@[i as int]);
            assert(out@ =~= before + encoded(rest));
        }
    } else if n - i == 2 {
        let x: u32 = data[i] as u32 * 65536 + data[i + 1] as u32 * 256;
        out.push(symbol_of(x / 262144));
        out.push(symbol_of(x / 4096 % 64));
        out.push(symbol_of(x / 64 % 64));
        out.push('=');
        proof {
            assert(rest[0] == data@[i as int]);
            assert(rest[1] == data@[i + 1]);
            assert(out@ =~= before + encoded(rest));
        }
    } else {
        proof {
            assert(out@ =~= before + encoded(rest));
        }
    }
    out
}

} // verus!
