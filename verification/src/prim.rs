use vstd::prelude::*;

verus! {

/// The numeric capability set the machine is written against: wrapping
/// arithmetic, ordering, shifts, zero/one, and conversion to an index.
/// Every operation has a specification-level twin (`w_add` for `wadd`, and
/// so on) so that machine semantics can be stated abstractly per width.
///
/// All arithmetic is wrapping (two's complement); division is the one
/// partial operation, guarded by `div_ok`.
pub trait Prim: Copy + Sized {
    /// The mathematical value a word stands for (signed or unsigned).
    spec fn sp_val(self) -> int;

    spec fn sp_zero() -> Self;

    spec fn sp_one() -> Self;

    /// Wrapping addition, at the specification level.
    spec fn w_add(self, o: Self) -> Self;

    spec fn w_sub(self, o: Self) -> Self;

    spec fn w_mul(self, o: Self) -> Self;

    /// Division (truncating for signed widths); meaningful when `div_ok`.
    spec fn w_div(self, o: Self) -> Self;

    /// Inputs on which division neither divides by zero nor overflows.
    spec fn div_ok(self, o: Self) -> bool;

    spec fn w_shl(self, n: u32) -> Self;

    spec fn w_shr(self, n: u32) -> Self;

    fn zero() -> (r: Self)
        ensures
            r == Self::sp_zero(),
    ;

    fn one() -> (r: Self)
        ensures
            r == Self::sp_one(),
    ;

    fn wadd(self, o: Self) -> (r: Self)
        ensures
            r == self.w_add(o),
    ;

    fn wsub(self, o: Self) -> (r: Self)
        ensures
            r == self.w_sub(o),
    ;

    fn wmul(self, o: Self) -> (r: Self)
        ensures
            r == self.w_mul(o),
    ;

    fn wdiv(self, o: Self) -> (r: Self)
        requires
            self.div_ok(o),
        ensures
            r == self.w_div(o),
    ;

    fn shl(self, n: u32) -> (r: Self)
        ensures
            r == self.w_shl(n),
    ;

    fn shr(self, n: u32) -> (r: Self)
        ensures
            r == self.w_shr(n),
    ;

    fn eq_val(self, o: Self) -> (r: bool)
        ensures
            r == (self == o),
    ;

    fn lt(self, o: Self) -> (r: bool)
        ensures
            r == (self.sp_val() < o.sp_val()),
    ;

    /// Conversion to an index. Exact whenever the value fits; a width wider
    /// than the host's `usize` truncates out-of-range values.
    fn to_usize(self) -> (r: usize)
        ensures
            0 <= self.sp_val() <= usize::MAX as int ==> r as int == self.sp_val(),
    ;

    proof fn lemma_consts()
        ensures
            Self::sp_zero().sp_val() == 0,
            Self::sp_one().sp_val() == 1,
    ;

    proof fn lemma_val_injective(self, o: Self)
        ensures
            self.sp_val() == o.sp_val() ==> self == o,
    ;
}

/// A word narrow enough to address the host: every value converts to a
/// `usize` exactly, and the block arithmetic the fetch cache relies on
/// (shift right then left by six) lands on 64-word boundaries.
pub trait Addr: Prim {
    proof fn lemma_fits(self)
        ensures
            0 <= self.sp_val() <= usize::MAX as int,
    ;

    proof fn lemma_block6(self)
        ensures
            self.w_shr(6).sp_val() == self.sp_val() / 64,
            self.w_shr(6).w_shl(6).sp_val() == (self.sp_val() / 64) * 64,
    ;
}

/// Complement pairing: the bidirectional reinterpretation between an
/// unsigned width and its signed counterpart of the same bit pattern.
/// The two directions are mutually inverse; see `lemma_compl_inverse_u32`
/// and its siblings.
pub trait Compl<O>: Prim {
    /// The counterpart word with the same bit pattern.
    spec fn sp_compl(self) -> O;

    fn compl(&self) -> (r: O)
        ensures
            r == self.sp_compl(),
    ;
}

impl Prim for u32 {
    open spec fn sp_val(self) -> int {
        self as int
    }

    open spec fn sp_zero() -> Self {
        0u32
    }

    open spec fn sp_one() -> Self {
        1u32
    }

    open spec fn w_add(self, o: Self) -> Self {
        self.wrapping_add(o)
    }

    open spec fn w_sub(self, o: Self) -> Self {
        self.wrapping_sub(o)
    }

    open spec fn w_mul(self, o: Self) -> Self {
        self.wrapping_mul(o)
    }

    open spec fn w_div(self, o: Self) -> Self {
        self / o
    }

    open spec fn div_ok(self, o: Self) -> bool {
        o != 0
    }

    open spec fn w_shl(self, n: u32) -> Self {
        self.wrapping_shl(n)
    }

    open spec fn w_shr(self, n: u32) -> Self {
        self.wrapping_shr(n)
    }

    fn zero() -> Self {
        0
    }

    fn one() -> Self {
        1
    }

    fn wadd(self, o: Self) -> Self {
        self.wrapping_add(o)
    }

    fn wsub(self, o: Self) -> Self {
        self.wrapping_sub(o)
    }

    fn wmul(self, o: Self) -> Self {
        self.wrapping_mul(o)
    }

    fn wdiv(self, o: Self) -> Self {
        self / o
    }

    fn shl(self, n: u32) -> Self {
        self.wrapping_shl(n)
    }

    fn shr(self, n: u32) -> Self {
        self.wrapping_shr(n)
    }

    fn eq_val(self, o: Self) -> bool {
        self == o
    }

    fn lt(self, o: Self) -> bool {
        self < o
    }

    fn to_usize(self) -> usize {
        self as usize
    }

    proof fn lemma_consts() {
    }

    proof fn lemma_val_injective(self, o: Self) {
    }
}

impl Addr for u32 {
    proof fn lemma_fits(self) {
    }

    proof fn lemma_block6(self) {
        assert(self >> 6u32 == self / 64u32) by (bit_vector);
        assert((self >> 6u32) << 6u32 == (self >> 6u32) * 64) by (bit_vector);
    }
}

impl Compl<i32> for u32 {
    open spec fn sp_compl(self) -> i32 {
        if self > i32::MAX {
            (self - 0x1_0000_0000) as i32
        } else {
            self as i32
        }
    }

    fn compl(&self) -> i32 {
        0i32.wrapping_add_unsigned(*self)
    }
}

impl Prim for i32 {
    open spec fn sp_val(self) -> int {
        self as int
    }

    open spec fn sp_zero() -> Self {
        0i32
    }

    open spec fn sp_one() -> Self {
        1i32
    }

    open spec fn w_add(self, o: Self) -> Self {
        self.wrapping_add(o)
    }

    open spec fn w_sub(self, o: Self) -> Self {
        self.wrapping_sub(o)
    }

    open spec fn w_mul(self, o: Self) -> Self {
        self.wrapping_mul(o)
    }

    open spec fn w_div(self, o: Self) -> Self {
        let x = self as int;
        let d = o as int;
        let q = if x >= 0 && d > 0 {
            x / d
        } else if x <= 0 && d < 0 {
            (x * -1) / (d * -1)
        } else if x < 0 {
            ((x * -1) / d) * -1
        } else {
            (x / (d * -1)) * -1
        };
        q as i32
    }

    open spec fn div_ok(self, o: Self) -> bool {
        o != 0 && !(self == i32::MIN && o == -1)
    }

    open spec fn w_shl(self, n: u32) -> Self {
        self.wrapping_shl(n)
    }

    open spec fn w_shr(self, n: u32) -> Self {
        self.wrapping_shr(n)
    }

    fn zero() -> Self {
        0
    }

    fn one() -> Self {
        1
    }

    fn wadd(self, o: Self) -> Self {
        self.wrapping_add(o)
    }

    fn wsub(self, o: Self) -> Self {
        self.wrapping_sub(o)
    }

    fn wmul(self, o: Self) -> Self {
        self.wrapping_mul(o)
    }

    fn wdiv(self, o: Self) -> Self {
        proof {
            lemma_trunc_div_i32_bounds(self, o);
        }
        self.checked_div(o).unwrap()
    }

    fn shl(self, n: u32) -> Self {
        self.wrapping_shl(n)
    }

    fn shr(self, n: u32) -> Self {
        self.wrapping_shr(n)
    }

    fn eq_val(self, o: Self) -> bool {
        self == o
    }

    fn lt(self, o: Self) -> bool {
        self < o
    }

    fn to_usize(self) -> usize {
        #[verifier::truncate] (self as usize)
    }

    proof fn lemma_consts() {
    }

    proof fn lemma_val_injective(self, o: Self) {
    }
}

impl Compl<u32> for i32 {
    open spec fn sp_compl(self) -> u32 {
        if self < 0 {
            (self + 0x1_0000_0000) as u32
        } else {
            self as u32
        }
    }

    fn compl(&self) -> u32 {
        0u32.wrapping_add_signed(*self)
    }
}

/// Reinterpreting a 32-bit word as signed and back yields the word itself.
pub proof fn lemma_compl_inverse_u32(x: u32)
    ensures
        x.sp_compl().sp_compl() == x,
{
}

/// Reinterpreting a signed 32-bit word as unsigned and back yields the
/// word itself.
pub proof fn lemma_compl_inverse_i32(x: i32)
    ensures
        x.sp_compl().sp_compl() == x,
{
}

/// Truncating signed division stays in range and matches `checked_div`
/// whenever `div_ok` holds.
proof fn lemma_trunc_div_i32_bounds(x: i32, d: i32)
    requires
        x.div_ok(d),
    ensures
        x.checked_div(d) == Some(x.w_div(d)),
{
    let xi = x as int;
    let di = d as int;
    if xi >= 0 && di > 0 {
        lemma_div_shrinks(xi, di);
    } else if xi <= 0 && di < 0 {
        lemma_div_shrinks(xi * -1, di * -1);
        if di <= -2 {
            lemma_div_halves(xi * -1, di * -1);
        } else {
            lemma_div_one(xi * -1);
        }
    } else if xi < 0 {
        lemma_div_shrinks(xi * -1, di);
    } else {
        lemma_div_shrinks(xi, di * -1);
    }
}

proof fn lemma_div_one(x: int)
    by (nonlinear_arith)
    requires
        x >= 0,
    ensures
        x / 1 == x,
{
}

proof fn lemma_div_halves(x: int, d: int)
    by (nonlinear_arith)
    requires
        x >= 0,
        d >= 2,
    ensures
        x / d <= x / 2,
{
}

/// For nonnegative `x` and positive `d`, the quotient is between 0 and `x`.
proof fn lemma_div_shrinks(x: int, d: int)
    by (nonlinear_arith)
    requires
        x >= 0,
        d > 0,
    ensures
        0 <= x / d <= x,
{
}

impl Prim for u64 {
    open spec fn sp_val(self) -> int {
        self as int
    }

    open spec fn sp_zero() -> Self {
        0u64
    }

    open spec fn sp_one() -> Self {
        1u64
    }

    open spec fn w_add(self, o: Self) -> Self {
        self.wrapping_add(o)
    }

    open spec fn w_sub(self, o: Self) -> Self {
        self.wrapping_sub(o)
    }

    open spec fn w_mul(self, o: Self) -> Self {
        self.wrapping_mul(o)
    }

    open spec fn w_div(self, o: Self) -> Self {
        self / o
    }

    open spec fn div_ok(self, o: Self) -> bool {
        o != 0
    }

    open spec fn w_shl(self, n: u32) -> Self {
        self.wrapping_shl(n)
    }

    open spec fn w_shr(self, n: u32) -> Self {
        self.wrapping_shr(n)
    }

    fn zero() -> Self {
        0
    }

    fn one() -> Self {
        1
    }

    fn wadd(self, o: Self) -> Self {
        self.wrapping_add(o)
    }

    fn wsub(self, o: Self) -> Self {
        self.wrapping_sub(o)
    }

    fn wmul(self, o: Self) -> Self {
        self.wrapping_mul(o)
    }

    fn wdiv(self, o: Self) -> Self {
        self / o
    }

    fn shl(self, n: u32) -> Self {
        self.wrapping_shl(n)
    }

    fn shr(self, n: u32) -> Self {
        self.wrapping_shr(n)
    }

    fn eq_val(self, o: Self) -> bool {
        self == o
    }

    fn lt(self, o: Self) -> bool {
        self < o
    }

    fn to_usize(self) -> usize {
        #[verifier::truncate] (self as usize)
    }

    proof fn lemma_consts() {
    }

    proof fn lemma_val_injective(self, o: Self) {
    }
}

impl Compl<i64> for u64 {
    open spec fn sp_compl(self) -> i64 {
        if self > i64::MAX {
            (self - 0x1_0000_0000_0000_0000) as i64
        } else {
            self as i64
        }
    }

    fn compl(&self) -> i64 {
        0i64.wrapping_add_unsigned(*self)
    }
}

impl Prim for i64 {
    open spec fn sp_val(self) -> int {
        self as int
    }

    open spec fn sp_zero() -> Self {
        0i64
    }

    open spec fn sp_one() -> Self {
        1i64
    }

    open spec fn w_add(self, o: Self) -> Self {
        self.wrapping_add(o)
    }

    open spec fn w_sub(self, o: Self) -> Self {
        self.wrapping_sub(o)
    }

    open spec fn w_mul(self, o: Self) -> Self {
        self.wrapping_mul(o)
    }

    open spec fn w_div(self, o: Self) -> Self {
        let x = self as int;
        let d = o as int;
        let q = if x >= 0 && d > 0 {
            x / d
        } else if x <= 0 && d < 0 {
            (x * -1) / (d * -1)
        } else if x < 0 {
            ((x * -1) / d) * -1
        } else {
            (x / (d * -1)) * -1
        };
        q as i64
    }

    open spec fn div_ok(self, o: Self) -> bool {
        o != 0 && !(self == i64::MIN && o == -1)
    }

    open spec fn w_shl(self, n: u32) -> Self {
        self.wrapping_shl(n)
    }

    open spec fn w_shr(self, n: u32) -> Self {
        self.wrapping_shr(n)
    }

    fn zero() -> Self {
        0
    }

    fn one() -> Self {
        1
    }

    fn wadd(self, o: Self) -> Self {
        self.wrapping_add(o)
    }

    fn wsub(self, o: Self) -> Self {
        self.wrapping_sub(o)
    }

    fn wmul(self, o: Self) -> Self {
        self.wrapping_mul(o)
    }

    fn wdiv(self, o: Self) -> Self {
        proof {
            lemma_trunc_div_i64_bounds(self, o);
        }
        self.checked_div(o).unwrap()
    }

    fn shl(self, n: u32) -> Self {
        self.wrapping_shl(n)
    }

    fn shr(self, n: u32) -> Self {
        self.wrapping_shr(n)
    }

    fn eq_val(self, o: Self) -> bool {
        self == o
    }

    fn lt(self, o: Self) -> bool {
        self < o
    }

    fn to_usize(self) -> usize {
        #[verifier::truncate] (self as usize)
    }

    proof fn lemma_consts() {
    }

    proof fn lemma_val_injective(self, o: Self) {
    }
}

impl Compl<u64> for i64 {
    open spec fn sp_compl(self) -> u64 {
        if self < 0 {
            (self + 0x1_0000_0000_0000_0000) as u64
        } else {
            self as u64
        }
    }

    fn compl(&self) -> u64 {
        0u64.wrapping_add_signed(*self)
    }
}

/// Reinterpreting a 64-bit word as signed and back yields the word itself.
pub proof fn lemma_compl_inverse_u64(x: u64)
    ensures
        x.sp_compl().sp_compl() == x,
{
}

/// Reinterpreting a signed 64-bit word as unsigned and back yields the
/// word itself.
pub proof fn lemma_compl_inverse_i64(x: i64)
    ensures
        x.sp_compl().sp_compl() == x,
{
}

/// Truncating signed division stays in range and matches `checked_div`
/// whenever `div_ok` holds.
proof fn lemma_trunc_div_i64_bounds(x: i64, d: i64)
    requires
        x.div_ok(d),
    ensures
        x.checked_div(d) == Some(x.w_div(d)),
{
    let xi = x as int;
    let di = d as int;
    if xi >= 0 && di > 0 {
        lemma_div_shrinks(xi, di);
    } else if xi <= 0 && di < 0 {
        lemma_div_shrinks(xi * -1, di * -1);
        if di <= -2 {
            lemma_div_halves(xi * -1, di * -1);
        } else {
            lemma_div_one(xi * -1);
        }
    } else if xi < 0 {
        lemma_div_shrinks(xi * -1, di);
    } else {
        lemma_div_shrinks(xi, di * -1);
    }
}

/// Signed wrapping addition through the complement pairing produces the same
/// bit pattern as unsigned wrapping addition of the patterns themselves: the
/// one physical register file serves both views.
pub proof fn lemma_signed_add_matches_unsigned_u32(a: u32, b: u32)
    ensures
        a.sp_compl().w_add(b.sp_compl()).sp_compl() == a.w_add(b),
{
}

/// As `lemma_signed_add_matches_unsigned_u32`, for wrapping subtraction.
pub proof fn lemma_signed_sub_matches_unsigned_u32(a: u32, b: u32)
    ensures
        a.sp_compl().w_sub(b.sp_compl()).sp_compl() == a.w_sub(b),
{
}

/// As `lemma_signed_add_matches_unsigned_u32`, at the 64-bit width.
pub proof fn lemma_signed_add_matches_unsigned_u64(a: u64, b: u64)
    ensures
        a.sp_compl().w_add(b.sp_compl()).sp_compl() == a.w_add(b),
{
}

/// As `lemma_signed_add_matches_unsigned_u32`, for wrapping multiplication:
/// the two views of one register file agree on products as well.
pub proof fn lemma_signed_mul_matches_unsigned_u32(a: u32, b: u32)
    ensures
        a.sp_compl().w_mul(b.sp_compl()).sp_compl() == a.w_mul(b),
{
    let r = 0x1_0000_0000int;
    let sa = a.sp_compl() as int;
    let sb = b.sp_compl() as int;
    let ka: int = if a > i32::MAX as u32 { 1 } else { 0 };
    let kb: int = if b > i32::MAX as u32 { 1 } else { 0 };
    let c = ka * kb * r - kb * a - ka * b;
    assert(sa * sb == r * c + a * b) by (nonlinear_arith)
        requires
            sa == a - ka * r,
            sb == b - kb * r,
            c == ka * kb * r - kb * a - ka * b,
            r == 0x1_0000_0000int,
    ;
    vstd::arithmetic::div_mod::lemma_mod_multiples_vanish(c, a * b, r);
    assert(0 <= (a * b) % r < r) by (nonlinear_arith)
        requires
            a * b >= 0,
            r == 0x1_0000_0000int,
    ;
    assert((a as nat * b as nat) % (0x1_0000_0000 as nat) == ((a * b) % r) as nat);
}

/// As `lemma_signed_add_matches_unsigned_u64`, for wrapping subtraction.
pub proof fn lemma_signed_sub_matches_unsigned_u64(a: u64, b: u64)
    ensures
        a.sp_compl().w_sub(b.sp_compl()).sp_compl() == a.w_sub(b),
{
}

/// As `lemma_signed_mul_matches_unsigned_u32`, at the 64-bit width.
pub proof fn lemma_signed_mul_matches_unsigned_u64(a: u64, b: u64)
    ensures
        a.sp_compl().w_mul(b.sp_compl()).sp_compl() == a.w_mul(b),
{
    let r = 0x1_0000_0000_0000_0000int;
    let sa = a.sp_compl() as int;
    let sb = b.sp_compl() as int;
    let ka: int = if a > i64::MAX as u64 { 1 } else { 0 };
    let kb: int = if b > i64::MAX as u64 { 1 } else { 0 };
    let c = ka * kb * r - kb * a - ka * b;
    assert(sa * sb == r * c + a * b) by (nonlinear_arith)
        requires
            sa == a - ka * r,
            sb == b - kb * r,
            c == ka * kb * r - kb * a - ka * b,
            r == 0x1_0000_0000_0000_0000int,
    ;
    vstd::arithmetic::div_mod::lemma_mod_multiples_vanish(c, a * b, r);
    assert(0 <= (a * b) % r < r) by (nonlinear_arith)
        requires
            a * b >= 0,
            r == 0x1_0000_0000_0000_0000int,
    ;
    assert((a as nat * b as nat) % (0x1_0000_0000_0000_0000 as nat) == ((a * b) % r) as nat);
}

} // verus!
