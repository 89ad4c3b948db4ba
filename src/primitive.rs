//! The primitive types that the interpreter reads, and the text it makes of
//! their bytes.

use vstd::prelude::*;
use crate::table::same_text;

verus! {

/// How the bytes of a primitive are shown.
#[derive(Clone, Copy, Debug, PartialEq, Eq, Structural)]
pub enum Format {
    /// Two's complement integer, in decimal.
    Signed,
    /// Unsigned integer, in decimal.
    Unsigned,
    /// IEEE floating point number.
    Float,
    /// Address, in hexadecimal.
    Pointer,
}

/// A primitive type: its width in bytes and how it is shown.
#[derive(Clone, Copy, Debug, PartialEq, Eq, Structural)]
pub struct Primitive {
    pub width: usize,
    pub format: Format,
}

pub open spec fn prim(width: usize, format: Format) -> Option<Primitive> {
    Some(Primitive { width, format })
}

/// The primitive table. `int` is read as two bytes and `long` as four.
pub open spec fn primitive_spec(n: Seq<char>) -> Option<Primitive> {
    if n == "char"@ || n == "signed char"@ || n == "unsigned char"@ {
        prim(1, Format::Signed)
    } else if n == "short"@ || n == "signed short"@ || n == "short int"@ || n == "signed short int"@
        || n == "short signed"@ || n == "short signed int"@ {
        prim(2, Format::Signed)
    } else if n == "unsigned short"@ || n == "unsigned short int"@ || n == "short unsigned"@ || n
        == "short unsigned int"@ {
        prim(2, Format::Unsigned)
    } else if n == "int"@ || n == "signed int"@ || n == "signed"@ {
        prim(2, Format::Signed)
    } else if n == "unsigned int"@ || n == "unsigned"@ {
        prim(2, Format::Unsigned)
    } else if n == "long"@ || n == "signed long"@ || n == "long int"@ || n == "signed long int"@ || n
        == "long signed"@ || n == "long signed int"@ {
        prim(4, Format::Signed)
    } else if n == "unsigned long"@ || n == "unsigned long int"@ || n == "long unsigned"@ || n
        == "long unsigned int"@ {
        prim(4, Format::Unsigned)
    } else if n == "long long"@ || n == "signed long long"@ || n == "long long int"@ || n
        == "signed long long int"@ || n == "long long signed"@ || n == "long long signed int"@ {
        prim(8, Format::Signed)
    } else if n == "unsigned long long"@ || n == "unsigned long long int"@ || n
        == "long long unsigned"@ || n == "long long unsigned int"@ {
        prim(8, Format::Unsigned)
    } else if n == "float"@ {
        prim(4, Format::Float)
    } else if n == "double"@ {
        prim(8, Format::Float)
    } else if n == "*"@ {
        prim(8, Format::Pointer)
    } else {
        None
    }
}

fn is_one_of(n: &str, names: &[&str]) -> (r: bool)
    ensures
        r == exists|i: int| 0 <= i < names@.len() && n@ == (#[trigger] names@[i])@,
{
    let mut i: usize = 0;
    while i < names.len()
        invariant
            i <= names@.len(),
            forall|j: int| 0 <= j < i ==> n@ != (#[trigger] names@[j])@,
        decreases names@.len() - i,
    {
        if same_text(n, names[i]) {
            return true;
        }
        i = i + 1;
    }
    false
}

/// Looks a name up in the primitive table.
pub fn primitive_of(n: &str) -> (r: Option<Primitive>)
    ensures
        r == primitive_spec(n@),
{
    let chars: [&str; 3] = ["char", "signed char", "unsigned char"];
    let shorts: [&str; 6] = ["short", "signed short", "short int", "signed short int", "short signed", "short signed int"];
    let ushorts: [&str; 4] = ["unsigned short", "unsigned short int", "short unsigned", "short unsigned int"];
    let ints: [&str; 3] = ["int", "signed int", "signed"];
    let uints: [&str; 2] = ["unsigned int", "unsigned"];
    let longs: [&str; 6] = ["long", "signed long", "long int", "signed long int", "long signed", "long signed int"];
    let ulongs: [&str; 4] = ["unsigned long", "unsigned long int", "long unsigned", "long unsigned int"];
    let llongs: [&str; 6] = [
        "long long",
        "signed long long",
        "long long int",
        "signed long long int",
        "long long signed",
        "long long signed int",
    ];
    let ullongs: [&str; 4] = [
        "unsigned long long",
        "unsigned long long int",
        "long long unsigned",
        "long long unsigned int",
    ];
    if is_one_of(n, chars.as_slice()) {
        Some(Primitive { width: 1, format: Format::Signed })
    } else if is_one_of(n, shorts.as_slice()) {
        Some(Primitive { width: 2, format: Format::Signed })
    } else if is_one_of(n, ushorts.as_slice()) {
        Some(Primitive { width: 2, format: Format::Unsigned })
    } else if is_one_of(n, ints.as_slice()) {
        Some(Primitive { width: 2, format: Format::Signed })
    } else if is_one_of(n, uints.as_slice()) {
        Some(Primitive { width: 2, format: Format::Unsigned })
    } else if is_one_of(n, longs.as_slice()) {
        Some(Primitive { width: 4, format: Format::Signed })
    } else if is_one_of(n, ulongs.as_slice()) {
        Some(Primitive { width: 4, format: Format::Unsigned })
    } else if is_one_of(n, llongs.as_slice()) {
        Some(Primitive { width: 8, format: Format::Signed })
    } else if is_one_of(n, ullongs.as_slice()) {
        Some(Primitive { width: 8, format: Format::Unsigned })
    } else if same_text(n, "float") {
        Some(Primitive { width: 4, format: Format::Float })
    } else if same_text(n, "double") {
        Some(Primitive { width: 8, format: Format::Float })
    } else if same_text(n, "*") {
        Some(Primitive { width: 8, format: Format::Pointer })
    } else {
        None
    }
}


/// `256` to the power `w`: the number of values that `w` bytes can hold.
pub open spec fn span(w: nat) -> nat
    decreases w,
{
    if w == 0 {
        1
    } else {
        256 * span((w - 1) as nat)
    }
}

/// The unsigned value of little-endian bytes.
pub open spec fn le_value(b: Seq<u8>) -> nat
    decreases b.len(),
{
    if b.len() == 0 {
        0
    } else {
        b[0] as nat + 256 * le_value(b.drop_first())
    }
}

/// The two's complement value of little-endian bytes.
pub open spec fn signed_value(b: Seq<u8>) -> int {
    if 2 * le_value(b) >= span(b.len()) {
        le_value(b) - span(b.len())
    } else {
        le_value(b) as int
    }
}

pub open spec fn digit_char(d: nat) -> char {
    if d == 0 { '0' } else if d == 1 { '1' } else if d == 2 { '2' } else if d == 3 { '3' }
    else if d == 4 { '4' } else if d == 5 { '5' } else if d == 6 { '6' } else if d == 7 { '7' }
    else if d == 8 { '8' } else if d == 9 { '9' } else if d == 10 { 'a' } else if d == 11 { 'b' }
    else if d == 12 { 'c' } else if d == 13 { 'd' } else if d == 14 { 'e' } else { 'f' }
}

/// The digits of `n` in base `b`, most significant first, without leading
/// zeros (`0` is one digit).
pub open spec fn digits(n: nat, b: nat) -> Seq<char>
    decreases n,
{
    if b < 2 || n < b {
        seq![digit_char(n)]
    } else {
        proof {
            assert(n / b < n) by (nonlinear_arith)
                requires
                    b >= 2,
                    n >= b,
            ;
        }
        digits(n / b, b) + seq![digit_char(n % b)]
    }
}

pub open spec fn int_text(v: int) -> Seq<char> {
    if v < 0 {
        seq!['-'] + digits((-v) as nat, 10)
    } else {
        digits(v as nat, 10)
    }
}

/// One value: signed or unsigned decimal, or an address in hexadecimal.
pub open spec fn item_text(p: Primitive, b: Seq<u8>) -> Seq<char> {
    if p.format == Format::Signed {
        int_text(signed_value(b))
    } else if p.format == Format::Pointer {
        seq!['0', 'x'] + digits(le_value(b), 16)
    } else {
        digits(le_value(b), 10)
    }
}

/// The `k`-th value of width `w` in `b`.
pub open spec fn slot(b: Seq<u8>, w: nat, k: int) -> Seq<u8> {
    b.subrange(k * w, k * w + w)
}

/// The first `k` values of `b`, separated by `", "`.
pub open spec fn joined(p: Primitive, b: Seq<u8>, k: int) -> Seq<char>
    decreases k,
{
    if k <= 0 {
        seq![]
    } else if k == 1 {
        item_text(p, slot(b, p.width as nat, 0))
    } else {
        joined(p, b, k - 1) + seq![',', ' '] + item_text(p, slot(b, p.width as nat, k - 1))
    }
}

/// The text of `count` values read into `b`: one value alone, or a
/// bracketed list.
pub open spec fn values_text(p: Primitive, b: Seq<u8>, count: nat) -> Seq<char> {
    if count == 1 {
        item_text(p, b)
    } else {
        seq!['['] + joined(p, b, count as int) + seq![']']
    }
}

/// The widths that the primitive table uses.
pub open spec fn valid_width(w: usize) -> bool {
    w == 1 || w == 2 || w == 4 || w == 8
}

proof fn lemma_span_values()
    ensures
        span(0) == 1,
        span(1) == 256,
        span(2) == 65536,
        span(4) == 0x1_0000_0000,
        span(8) == 0x1_0000_0000_0000_0000,
{
    reveal_with_fuel(span, 9);
}

proof fn lemma_span_grows(a: nat, b: nat)
    requires
        a <= b,
    ensures
        span(a) <= span(b),
    decreases b,
{
    if a < b {
        lemma_span_grows(a, (b - 1) as nat);
    }
}

proof fn lemma_le_value_bound(b: Seq<u8>)
    ensures
        le_value(b) < span(b.len()),
    decreases b.len(),
{
    if b.len() > 0 {
        lemma_le_value_bound(b.drop_first());
        let v = le_value(b.drop_first());
        let s = span(b.drop_first().len());
        assert(b[0] as nat + 256 * v < 256 * s) by (nonlinear_arith)
            requires
                b[0] < 256,
                v < s,
        ;
    }
}

fn digit_str(d: u64) -> (r: &'static str)
    requires
        d < 16,
    ensures
        r@ == seq![digit_char(d as nat)],
{
    proof {
        reveal_strlit("0");
        reveal_strlit("1");
        reveal_strlit("2");
        reveal_strlit("3");
        reveal_strlit("4");
        reveal_strlit("5");
        reveal_strlit("6");
        reveal_strlit("7");
        reveal_strlit("8");
        reveal_strlit("9");
        reveal_strlit("a");
        reveal_strlit("b");
        reveal_strlit("c");
        reveal_strlit("d");
        reveal_strlit("e");
        reveal_strlit("f");
    }
    if d == 0 { "0" } else if d == 1 { "1" } else if d == 2 { "2" } else if d == 3 { "3" }
    else if d == 4 { "4" } else if d == 5 { "5" } else if d == 6 { "6" } else if d == 7 { "7" }
    else if d == 8 { "8" } else if d == 9 { "9" } else if d == 10 { "a" } else if d == 11 { "b" }
    else if d == 12 { "c" } else if d == 13 { "d" } else if d == 14 { "e" } else { "f" }
}

/// The digits of `n` in base `b` (10 or 16).
pub fn digits_text(n: u64, b: u64) -> (r: String)
    requires
        b == 10 || b == 16,
    ensures
        r@ == digits(n as nat, b as nat),
    decreases n,
{
    if n < b {
        String::from_str(digit_str(n))
    } else {
        let mut s = digits_text(n / b, b);
        s.append(digit_str(n % b));
        s
    }
}

/// The unsigned value of the `w` bytes of `b` from `start` on.
fn decode_le(b: &Vec<u8>, start: usize, w: usize) -> (r: u64)
    requires
        valid_width(w),
        start + w <= b@.len(),
    ensures
        r as nat == le_value(b@.subrange(start as int, start + w)),
{
    let total = b.len();
    let mut acc: u64 = 0;
    let mut i: usize = w;
    proof {
        lemma_span_values();
    }
    while i > 0
        invariant
            valid_width(w),
            start + w <= b@.len(),
            total == b@.len(),
            i <= w,
            acc as nat == le_value(b@.subrange(start + i, start + w)),
            span(8) == 0x1_0000_0000_0000_0000,
        decreases i,
    {
        let ghost tail = b@.subrange(start + i, start + w);
        let ghost whole = b@.subrange(start + i - 1, start + w);
        proof {
            assert(whole.drop_first() =~= tail);
            lemma_le_value_bound(whole);
            lemma_span_grows(whole.len(), 8);
        }
        i = i - 1;
        acc = b[start + i] as u64 + 256 * acc;
    }
    acc
}

/// The text of the value of `p` held in `b` from `start` on.
fn value_text(p: Primitive, b: &Vec<u8>, start: usize) -> (r: String)
    requires
        valid_width(p.width),
        p.format != Format::Float,
        start + p.width <= b@.len(),
    ensures
        r@ == item_text(p, b@.subrange(start as int, start + p.width)),
{
    let ghost bytes = b@.subrange(start as int, start + p.width);
    let raw = decode_le(b, start, p.width);
    proof {
        lemma_span_values();
        lemma_le_value_bound(bytes);
    }
    if p.format == Format::Pointer {
        let mut s = String::from_str("0x");
        proof {
            reveal_strlit("0x");
        }
        let d = digits_text(raw, 16);
        s.append(d.as_str());
        s
    } else if p.format == Format::Signed {
        let top: u64 = if p.width == 1 {
            0xff
        } else if p.width == 2 {
            0xffff
        } else if p.width == 4 {
            0xffff_ffff
        } else {
            0xffff_ffff_ffff_ffff
        };
        assert(top as nat + 1 == span(p.width as nat));
        if raw > top / 2 {
            let magnitude = (top - raw) + 1;
            let mut s = String::from_str("-");
            proof {
                reveal_strlit("-");
            }
            let d = digits_text(magnitude, 10);
            s.append(d.as_str());
            s
        } else {
            digits_text(raw, 10)
        }
    } else {
        digits_text(raw, 10)
    }
}

/// The text of `count` values of `p` read into `b`; `None` for floating
/// point values, which are shown elsewhere.
pub fn format_values(p: Primitive, b: &Vec<u8>, count: usize) -> (r: Option<String>)
    requires
        valid_width(p.width),
        b@.len() == p.width * count,
    ensures
        p.format == Format::Float ==> r is None,
        p.format != Format::Float ==> r is Some && r->0@ == values_text(p, b@, count as nat),
{
    if p.format == Format::Float {
        return None;
    }
    if count == 1 {
        let s = value_text(p, b, 0);
        proof {
            assert(b@.subrange(0, p.width as int) =~= b@);
        }
        return Some(s);
    }
    let mut s = String::from_str("[");
    proof {
        reveal_strlit("[");
        reveal_strlit(", ");
        reveal_strlit("]");
    }
    let total = b.len();
    let mut k: usize = 0;
    while k < count
        invariant
            total == b@.len(),
            valid_width(p.width),
            p.format != Format::Float,
            b@.len() == p.width * count,
            k <= count,
            s@ == seq!['['] + joined(p, b@, k as int),
        decreases count - k,
    {
        proof {
            assert(k * p.width + p.width <= count * p.width) by (nonlinear_arith)
                requires
                    k < count,
            ;
        }
        let start = k * p.width;
        if k > 0 {
            s.append(", ");
        }
        let item = value_text(p, b, start);
        s.append(item.as_str());
        proof {
            assert(slot(b@, p.width as nat, k as int) == b@.subrange(start as int, start + p.width));
            reveal_strlit(", ");
            if k == 0 {
                assert(s@ =~= seq!['['] + joined(p, b@, k + 1));
            } else {
                assert(s@ =~= seq!['['] + joined(p, b@, k + 1));
            }
        }
        k = k + 1;
    }
    s.append("]");
    Some(s)
}

} // verus!
