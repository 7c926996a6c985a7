use vstd::prelude::*;
use vstd::arithmetic::power2::{pow2, lemma2_to64, lemma_pow2_pos, lemma_pow2_strictly_increases, lemma2_to64_rest};
use vstd::bits::{lemma_u64_shl_is_mul, lemma_u64_shr_is_div};
use crate::dtype::DType;

verus! {

/// One element of a series. Floating variants hold their IEEE 754 bit
/// pattern, so a NaN is an ordinary value here and distinct from `Missing`.
#[derive(Debug)]
pub enum DataElement {
    I32(i32),
    I64(i64),
    F32(u32),
    F64(u64),
    STRING(String),
    Missing,
}

/// The character of a decimal digit.
pub open spec fn digit_char(d: nat) -> char {
    if d == 0 { '0' } else if d == 1 { '1' } else if d == 2 { '2' } else if d == 3 { '3' }
    else if d == 4 { '4' } else if d == 5 { '5' } else if d == 6 { '6' } else if d == 7 { '7' }
    else if d == 8 { '8' } else { '9' }
}

/// The decimal digits of `n`, most significant first, without leading zeros.
pub open spec fn digits(n: nat) -> Seq<char>
    decreases n,
{
    if n < 10 { seq![digit_char(n)] } else { digits(n / 10).push(digit_char(n % 10)) }
}

/// Decimal text of an integer: a minus sign for negatives, then the digits.
pub open spec fn decimal_text(v: int) -> Seq<char> {
    if v < 0 { seq!['-'] + digits((-v) as nat) } else { digits(v as nat) }
}

fn digit_str(d: u64) -> (r: &'static str)
    requires
        d < 10,
    ensures
        r@ == seq![digit_char(d as nat)],
{
    match d {
        0 => {
            proof { reveal_strlit("0"); }
            "0"
        },
        1 => {
            proof { reveal_strlit("1"); }
            "1"
        },
        2 => {
            proof { reveal_strlit("2"); }
            "2"
        },
        3 => {
            proof { reveal_strlit("3"); }
            "3"
        },
        4 => {
            proof { reveal_strlit("4"); }
            "4"
        },
        5 => {
            proof { reveal_strlit("5"); }
            "5"
        },
        6 => {
            proof { reveal_strlit("6"); }
            "6"
        },
        7 => {
            proof { reveal_strlit("7"); }
            "7"
        },
        8 => {
            proof { reveal_strlit("8"); }
            "8"
        },
        _ => {
            proof { reveal_strlit("9"); }
            "9"
        },
    }
}

/// The decimal text of `v`.
fn int_to_text(v: i64) -> (r: String)
    ensures
        r@ == decimal_text(v as int),
{
    let neg = v < 0;
    let n0: u64 = if neg { (0i128 - v as i128) as u64 } else { v as u64 };
    let mut n: u64 = n0 / 10;
    let mut s = String::from_str(digit_str(n0 % 10));
    assert(digits(n0 as nat) == (if n0 < 10 { Seq::<char>::empty() } else { digits(n as nat) }) + s@);
    while n > 0
        invariant
            n == 0 ==> digits(n0 as nat) == s@,
            n > 0 ==> digits(n0 as nat) == digits(n as nat) + s@,
        decreases n,
    {
        let d = digit_str(n % 10);
        let ghost old_s = s@;
        s = String::from_str(d).concat(s.as_str());
        proof {
            if n < 10 {
                assert(digits(n as nat) == seq![digit_char(n as nat)]);
                assert(n % 10 == n);
            } else {
                assert(digits(n as nat) == digits((n / 10) as nat).push(digit_char((n % 10) as nat)));
                assert(digits((n / 10) as nat) + s@ == digits((n / 10) as nat).push(
                    digit_char((n % 10) as nat),
                ) + old_s);
            }
        }
        n = n / 10;
    }
    if neg {
        proof { reveal_strlit("-"); }
        String::from_str("-").concat(s.as_str())
    } else {
        s
    }
}

pub open spec fn f64_exp(b: u64) -> int {
    ((b >> 52u64) & 0x7ffu64) as int
}

pub open spec fn f64_frac(b: u64) -> int {
    (b & 0xfffffffffffffu64) as int
}

pub open spec fn f32_exp(b: u32) -> int {
    ((b >> 23u32) & 0xffu32) as int
}

pub open spec fn f32_frac(b: u32) -> int {
    (b & 0x7fffffu32) as int
}

/// NaN: all exponent bits set and a non-zero fraction.
pub open spec fn f64_bits_nan(b: u64) -> bool {
    f64_exp(b) == 0x7ff && f64_frac(b) != 0
}

pub open spec fn f32_bits_nan(b: u32) -> bool {
    f32_exp(b) == 0xff && f32_frac(b) != 0
}

/// The value of a float truncated toward zero and saturated to the `i64`
/// range, as Rust's `as i64` does, from its sign, biased exponent and
/// significand (hidden bit included). `bias` and `mbits` describe the format.
pub open spec fn trunc_float(neg: bool, exp: int, m: int, bias: int, mbits: int) -> int {
    if exp < bias {
        0
    } else if exp >= bias + 63 {
        if neg { i64::MIN as int } else { i64::MAX as int }
    } else {
        let mag: int = if exp >= bias + mbits {
            m * pow2((exp - bias - mbits) as nat)
        } else {
            m / pow2((bias + mbits - exp) as nat) as int
        };
        if neg { -mag } else { mag }
    }
}

pub open spec fn f64_trunc(b: u64) -> int {
    trunc_float(b >> 63u64 == 1, f64_exp(b), f64_frac(b) + 0x10000000000000, 1023, 52)
}

pub open spec fn f32_trunc(b: u32) -> int {
    trunc_float(b >> 31u32 == 1, f32_exp(b), f32_frac(b) + 0x800000, 127, 23)
}

/// Truncates a float given by parts, for the two IEEE 754 binary formats.
fn trunc_parts(neg: bool, exp: u64, m: u64, bias: u64, mbits: u64) -> (r: i64)
    requires
        (mbits == 52 && bias == 1023 && m < 0x20000000000000 && exp < 2048)
            || (mbits == 23 && bias == 127 && m < 0x1000000 && exp < 256),
    ensures
        r as int == trunc_float(neg, exp as int, m as int, bias as int, mbits as int),
{
    if exp < bias {
        0
    } else if exp >= bias + 63 {
        if neg { i64::MIN } else { i64::MAX }
    } else {
        proof {
            lemma2_to64();
            lemma2_to64_rest();
        }
        let mag: u64 = if exp >= bias + mbits {
            let s: u64 = exp - bias - mbits;
            let top: u64 = if mbits == 52 { 10 } else { 39 };
            proof {
                if s < top {
                    lemma_pow2_strictly_increases(s as nat, top as nat);
                }
                assert(m * pow2(s as nat) <= m * pow2(top as nat)) by (nonlinear_arith)
                    requires pow2(s as nat) <= pow2(top as nat);
                if mbits == 52 {
                    assert(pow2(10) == 0x400);
                    assert(m * 0x400 < 0x8000000000000000) by (nonlinear_arith)
                        requires m < 0x20000000000000;
                } else {
                    assert(pow2(39) == 0x8000000000);
                    assert(m * 0x8000000000 < 0x8000000000000000) by (nonlinear_arith)
                        requires m < 0x1000000;
                }
                lemma_u64_shl_is_mul(m, s);
            }
            m << s
        } else {
            let s: u64 = bias + mbits - exp;
            proof {
                lemma_u64_shr_is_div(m, s);
                lemma_pow2_pos(s as nat);
                assert(m as nat / pow2(s as nat) <= m) by (nonlinear_arith)
                    requires pow2(s as nat) > 0;
            }
            m >> s
        };
        if neg { -(mag as i64) } else { mag as i64 }
    }
}

impl DataElement {
    /// The natural type tag of the element.
    pub open spec fn spec_dtype(&self) -> DType {
        match self {
            DataElement::I32(_) => DType::I32,
            DataElement::I64(_) => DType::I64,
            DataElement::F32(_) => DType::F32,
            DataElement::F64(_) => DType::F64,
            DataElement::STRING(_) => DType::STRING,
            DataElement::Missing => DType::Missing,
        }
    }

    pub open spec fn spec_is_nan(&self) -> bool {
        match self {
            DataElement::F32(b) => f32_bits_nan(*b),
            DataElement::F64(b) => f64_bits_nan(*b),
            _ => false,
        }
    }

    /// Takes part in reductions: neither text nor NaN.
    pub open spec fn eligible(&self) -> bool {
        self.spec_dtype() != DType::STRING && !self.spec_is_nan()
    }

    /// The integer value of a non-text element: floats truncate, a missing
    /// element counts as zero.
    pub open spec fn int_value(&self) -> int {
        match self {
            DataElement::I32(v) => *v as int,
            DataElement::I64(v) => *v as int,
            DataElement::F32(b) => f32_trunc(*b),
            DataElement::F64(b) => f64_trunc(*b),
            _ => 0,
        }
    }

    pub fn dtype(&self) -> (r: DType)
        ensures
            r == self.spec_dtype(),
    {
        match self {
            DataElement::I32(_) => DType::I32,
            DataElement::I64(_) => DType::I64,
            DataElement::F32(_) => DType::F32,
            DataElement::F64(_) => DType::F64,
            DataElement::STRING(_) => DType::STRING,
            DataElement::Missing => DType::Missing,
        }
    }

    /// True only for a floating NaN.
    pub fn is_nan(&self) -> (r: bool)
        ensures
            r == self.spec_is_nan(),
    {
        match self {
            DataElement::F32(b) => ((*b >> 23u32) & 0xffu32) == 0xff && (*b & 0x7fffffu32) != 0,
            DataElement::F64(b) => ((*b >> 52u64) & 0x7ffu64) == 0x7ff
                && (*b & 0xfffffffffffffu64) != 0,
            _ => false,
        }
    }

    pub fn is_eligible(&self) -> (r: bool)
        ensures
            r == self.eligible(),
    {
        match self {
            DataElement::STRING(_) => false,
            _ => !self.is_nan(),
        }
    }

    /// The integer value of the element (see `int_value`).
    pub fn to_i64(&self) -> (r: i64)
        requires
            self.spec_dtype() != DType::STRING,
        ensures
            r as int == self.int_value(),
    {
        proof {
            lemma2_to64();
        }
        match self {
            DataElement::I32(v) => *v as i64,
            DataElement::I64(v) => *v,
            DataElement::F32(b) => {
                let b64: u64 = *b as u64;
                assert(f32_exp(*b) == ((b64 >> 23u64) & 0xffu64)) by (bit_vector)
                    requires b64 == *b as u64;
                assert(f32_frac(*b) == (b64 & 0x7fffffu64)) by (bit_vector)
                    requires b64 == *b as u64;
                assert((*b >> 31u32 == 1) == (b64 >> 31u64 == 1)) by (bit_vector)
                    requires b64 == *b as u64;
                assert((b64 >> 23u64) & 0xffu64 < 256) by (bit_vector);
                assert(b64 & 0x7fffffu64 < 0x800000) by (bit_vector);
                trunc_parts(b64 >> 31u64 == 1, (b64 >> 23u64) & 0xffu64,
                    (b64 & 0x7fffffu64) + 0x800000, 127, 23)
            },
            DataElement::F64(b) => {
                let b: u64 = *b;
                assert((b >> 52u64) & 0x7ffu64 < 2048) by (bit_vector);
                assert(b & 0xfffffffffffffu64 < 0x10000000000000) by (bit_vector);
                trunc_parts(b >> 63u64 == 1, (b >> 52u64) & 0x7ffu64,
                    (b & 0xfffffffffffffu64) + 0x10000000000000, 1023, 52)
            },
            _ => 0,
        }
    }

    /// Structural equality; text compares by its characters.
    pub open spec fn same(&self, o: &DataElement) -> bool {
        match *self {
            DataElement::I32(a) => o == DataElement::I32(a),
            DataElement::I64(a) => o == DataElement::I64(a),
            DataElement::F32(a) => o == DataElement::F32(a),
            DataElement::F64(a) => o == DataElement::F64(a),
            DataElement::STRING(a) => match *o {
                DataElement::STRING(b) => a@ == b@,
                _ => false,
            },
            DataElement::Missing => o == DataElement::Missing,
        }
    }

    /// Text of an element that holds no float.
    pub fn to_text(&self) -> (r: String)
        requires
            self.spec_dtype() != DType::F32,
            self.spec_dtype() != DType::F64,
        ensures
            r@ == self.text_value(),
    {
        match self {
            DataElement::I32(v) => int_to_text(*v as i64),
            DataElement::I64(v) => int_to_text(*v),
            DataElement::STRING(s) => s.clone(),
            _ => String::new(),
        }
    }

    /// The text that coercion to `STRING` gives an element that holds no float.
    pub open spec fn text_value(&self) -> Seq<char> {
        match self {
            DataElement::I32(v) => decimal_text(*v as int),
            DataElement::I64(v) => decimal_text(*v as int),
            DataElement::STRING(s) => s@,
            _ => Seq::empty(),
        }
    }
}

impl Clone for DataElement {
    fn clone(&self) -> (r: DataElement)
        ensures
            r == *self,
    {
        match self {
            DataElement::I32(v) => DataElement::I32(*v),
            DataElement::I64(v) => DataElement::I64(*v),
            DataElement::F32(v) => DataElement::F32(*v),
            DataElement::F64(v) => DataElement::F64(*v),
            DataElement::STRING(s) => DataElement::STRING(s.clone()),
            DataElement::Missing => DataElement::Missing,
        }
    }
}

impl PartialEq for DataElement {
    fn eq(&self, o: &DataElement) -> (r: bool)
        ensures
            r == self.same(o),
    {
        match self {
            DataElement::I32(a) => match o {
                DataElement::I32(b) => *a == *b,
                _ => false,
            },
            DataElement::I64(a) => match o {
                DataElement::I64(b) => *a == *b,
                _ => false,
            },
            DataElement::F32(a) => match o {
                DataElement::F32(b) => *a == *b,
                _ => false,
            },
            DataElement::F64(a) => match o {
                DataElement::F64(b) => *a == *b,
                _ => false,
            },
            DataElement::STRING(a) => match o {
                DataElement::STRING(b) => a.eq(b),
                _ => false,
            },
            DataElement::Missing => match o {
                DataElement::Missing => true,
                _ => false,
            },
        }
    }
}

impl vstd::std_specs::cmp::PartialEqSpecImpl for DataElement {
    open spec fn obeys_eq_spec() -> bool {
        true
    }

    open spec fn eq_spec(&self, o: &DataElement) -> bool {
        self.same(o)
    }
}

} // verus!
