//! Size classes for stored payloads.
//!
//! Classes 0..=31 cover payload sizes in eighth-steps over octaves starting at
//! 32 bytes; classes 32..=62 cover quarter-steps over the larger octaves; the
//! remaining class stands for oversize payloads kept outside the slot array.

use vstd::prelude::*;
use vstd::arithmetic::power2::{pow2, lemma_pow2_adds, lemma_pow2_pos, lemma2_to64};
use vstd::arithmetic::div_mod::{
    lemma_fundamental_div_mod, lemma_fundamental_div_mod_converse, lemma_div_by_multiple,
    lemma_div_non_zero,
};

verus! {

/// The number of sized classes; the class code equal to it means oversize.
pub const MAX_SIZE: u8 = 63;

/// A size class: either one of the `MAX_SIZE` fixed payload sizes, or
/// `Oversize` for payloads kept in their own external files.
#[derive(Copy, Clone, PartialEq, Eq, Structural, Debug)]
pub enum DatumSize {
    Oversize,
    Size(u8),
}

/// The payload size (in bytes) served by sized class `c`, for `0 <= c < 63`.
/// The octave base is `32 * 2^e`; within an octave the size steps by an
/// eighth of the base below class 32 and by a quarter of it above.
pub open spec fn class_size(c: int) -> int {
    if c < 32 {
        32 * pow2((c / 8) as nat) + 4 * pow2((c / 8) as nat) * (c % 8)
    } else {
        32 * pow2((c / 4 - 4) as nat) + 8 * pow2((c / 4 - 4) as nat) * (c % 4)
    }
}

/// The number of distinct payload sizes that sized class `c` serves.
/// Class 32 still spans an eighth-step: it serves what lies past class 31.
pub open spec fn class_size_range(c: int) -> int {
    if c == 0 {
        33
    } else if c <= 32 {
        if c % 8 == 0 {
            2 * pow2((c / 8) as nat) as int
        } else {
            4 * pow2((c / 8) as nat) as int
        }
    } else {
        if c % 4 == 0 {
            4 * pow2((c / 4 - 4) as nat) as int
        } else {
            8 * pow2((c / 4 - 4) as nat) as int
        }
    }
}

/// The number of slots of a table of sized class `c`: as many as keep the
/// payload area within 2 MiB, but at least 1 and at most 65536.
pub open spec fn class_entries(c: int) -> int {
    let q: int = (2048 * 1024) as int / class_size(c);
    if q > 65536 {
        65536
    } else if q < 1 {
        1
    } else {
        q
    }
}

/// Spells out the definition of `class_size` in terms of the octave exponent
/// and tweak, for use as an equation.
pub proof fn lemma_class_size_eval(c: int)
    requires
        0 <= c < 63,
    ensures
        c < 32 ==> class_size(c) == 32 * pow2((c / 8) as nat) as int + 4 * pow2(
            (c / 8) as nat,
        ) as int * (c % 8),
        c >= 32 ==> class_size(c) == 32 * pow2((c / 4 - 4) as nat) as int + 8 * pow2(
            (c / 4 - 4) as nat,
        ) as int * (c % 4),
{
}

/// `class_size` grows strictly from each sized class to the next.
pub proof fn lemma_class_size_step(c: int)
    requires
        0 <= c < 62,
    ensures
        class_size(c) < class_size(c + 1),
{
    lemma2_to64();
    lemma_class_size_eval(c);
    lemma_class_size_eval(c + 1);
    let b = c + 1;
    if b < 32 {
        let q = c / 8;
        let r = c % 8;
        let p = pow2(q as nat) as int;
        lemma_fundamental_div_mod(c, 8);
        lemma_pow2_pos(q as nat);
        if r == 7 {
            lemma_fundamental_div_mod_converse(b, 8, q + 1, 0);
            lemma_pow2_adds(q as nat, 1);
            assert(pow2((q + 1) as nat) == pow2(q as nat) * 2);
            assert(class_size(c) == 32 * p + 4 * p * 7);
            assert(class_size(b) == 32 * (2 * p));
            assert(32 * p + 4 * p * 7 < 32 * (2 * p)) by (nonlinear_arith)
                requires
                    p >= 1,
            ;
        } else {
            lemma_fundamental_div_mod_converse(b, 8, q, r + 1);
            assert(class_size(c) == 32 * p + 4 * p * r);
            assert(class_size(b) == 32 * p + 4 * p * (r + 1));
            assert(4 * p * (r + 1) == 4 * p * r + 4 * p) by (nonlinear_arith);
            assert(4 * p >= 4) by (nonlinear_arith)
                requires
                    p >= 1,
            ;
        }
    } else if c < 32 {
        assert(c == 31);
        assert(31 as int / 8 == 3 && 31 as int % 8 == 7);
        assert(32 as int / 4 - 4 == 4 && 32 as int % 4 == 0);
        assert(class_size(31) == 32 * 8 + 4 * 8 * 7);
        assert(class_size(32) == 32 * 16 + 8 * 16 * 0);
    } else {
        let q = c / 4;
        let r = c % 4;
        let p = pow2((q - 4) as nat) as int;
        lemma_fundamental_div_mod(c, 4);
        lemma_pow2_pos((q - 4) as nat);
        if r == 3 {
            lemma_fundamental_div_mod_converse(b, 4, q + 1, 0);
            lemma_pow2_adds((q - 4) as nat, 1);
            assert(pow2((q - 3) as nat) == pow2((q - 4) as nat) * 2);
            assert(class_size(c) == 32 * p + 8 * p * 3);
            assert(class_size(b) == 32 * (2 * p));
            assert(32 * p + 8 * p * 3 < 32 * (2 * p)) by (nonlinear_arith)
                requires
                    p >= 1,
            ;
        } else {
            lemma_fundamental_div_mod_converse(b, 4, q, r + 1);
            assert(class_size(c) == 32 * p + 8 * p * r);
            assert(class_size(b) == 32 * p + 8 * p * (r + 1));
            assert(8 * p * (r + 1) == 8 * p * r + 8 * p) by (nonlinear_arith);
            assert(8 * p >= 8) by (nonlinear_arith)
                requires
                    p >= 1,
            ;
        }
    }
}

/// A class's size range is exactly the step from the class below it, so
/// any payload that `nearest` sends to class `c` wastes less than the
/// range.
pub proof fn lemma_class_size_range_step(c: int)
    requires
        1 <= c < 63,
    ensures
        class_size_range(c) == class_size(c) - class_size(c - 1),
{
    if c < 32 {
        lemma_class_size_range_step_eighth(c);
    } else if c == 32 {
        lemma2_to64();
        assert(class_size(31) == 32 * 8 + 4 * 8 * 7);
        assert(class_size(32) == 32 * 16 + 8 * 16 * 0);
        assert(class_size_range(32) == 2 * pow2(4));
    } else {
        lemma_class_size_range_step_quarter(c);
    }
}

/// The step within the eighth-step region.
proof fn lemma_class_size_range_step_eighth(c: int)
    requires
        1 <= c < 32,
    ensures
        class_size_range(c) == class_size(c) - class_size(c - 1),
{
    lemma2_to64();
    if true {
        let q = c / 8;
        let r = c % 8;
        let p = pow2(q as nat) as int;
        lemma_fundamental_div_mod(c, 8);
        lemma_pow2_pos(q as nat);
        if r == 0 {
            lemma_fundamental_div_mod_converse(c - 1, 8, q - 1, 7);
            lemma_pow2_adds((q - 1) as nat, 1);
            assert(pow2(q as nat) == pow2((q - 1) as nat) * 2);
            let pp = pow2((q - 1) as nat) as int;
            assert(class_size(c - 1) == 32 * pp + 4 * pp * 7);
            assert(class_size(c) == 32 * (2 * pp));
            assert(class_size_range(c) == 2 * pow2(q as nat));
        } else {
            lemma_fundamental_div_mod_converse(c - 1, 8, q, r - 1);
            assert(class_size(c - 1) == 32 * p + 4 * p * (r - 1));
            assert(class_size(c) == 32 * p + 4 * p * r);
            assert(4 * p * r == 4 * p * (r - 1) + 4 * p) by (nonlinear_arith);
        }
    }
}

/// The step within the quarter-step region.
proof fn lemma_class_size_range_step_quarter(c: int)
    requires
        32 < c < 63,
    ensures
        class_size_range(c) == class_size(c) - class_size(c - 1),
{
    lemma2_to64();
    if true {
        let q = c / 4;
        let r = c % 4;
        let p = pow2((q - 4) as nat) as int;
        lemma_fundamental_div_mod(c, 4);
        lemma_pow2_pos((q - 4) as nat);
        if r == 0 {
            lemma_fundamental_div_mod_converse(c - 1, 4, q - 1, 3);
            lemma_pow2_adds((q - 5) as nat, 1);
            assert(pow2((q - 4) as nat) == pow2((q - 5) as nat) * 2);
            let pp = pow2((q - 5) as nat) as int;
            assert(class_size(c - 1) == 32 * pp + 8 * pp * 3);
            assert(class_size(c) == 32 * (2 * pp));
            assert(class_size_range(c) == 4 * pow2((q - 4) as nat));
        } else {
            lemma_fundamental_div_mod_converse(c - 1, 4, q, r - 1);
            assert(class_size(c - 1) == 32 * p + 8 * p * (r - 1));
            assert(class_size(c) == 32 * p + 8 * p * r);
            assert(8 * p * r == 8 * p * (r - 1) + 8 * p) by (nonlinear_arith);
        }
    }
}

/// `class_size` is monotone over the sized classes.
pub proof fn lemma_class_size_monotonic(a: int, b: int)
    requires
        0 <= a <= b < 63,
    ensures
        class_size(a) <= class_size(b),
    decreases b - a,
{
    if a < b {
        lemma_class_size_step(b - 1);
        lemma_class_size_monotonic(a, b - 1);
    }
}

/// Every sized class serves between 32 and 98304 bytes.
pub proof fn lemma_class_size_bounds(c: int)
    requires
        0 <= c < 63,
    ensures
        32 <= class_size(c) <= 98304,
{
    lemma2_to64();
    lemma_class_size_monotonic(0, c);
    lemma_class_size_monotonic(c, 62);
    lemma_class_size_eval(0);
    lemma_class_size_eval(62);
    assert(0 as int / 8 == 0 && 0 as int % 8 == 0);
    assert(62 as int / 4 - 4 == 11 && 62 as int % 4 == 2);
    assert(class_size(0) == 32 * 1 + 4 * 1 * 0);
    assert(class_size(62) == 32 * 2048 + 8 * 2048 * 2);
}

/// `pow2` is monotone.
proof fn lemma_pow2_increase(e1: nat, e2: nat)
    requires
        e1 <= e2,
    ensures
        pow2(e1) <= pow2(e2),
{
    lemma_pow2_adds(e1, (e2 - e1) as nat);
    lemma_pow2_pos((e2 - e1) as nat);
    assert(pow2(e1) * 1 <= pow2(e1) * pow2((e2 - e1) as nat)) by (nonlinear_arith)
        requires
            pow2((e2 - e1) as nat) >= 1,
            pow2(e1) >= 0,
    ;
}

/// Computes `32 * 2^exp` for the octave bases; every result fits in a
/// `usize`.
fn pow2_times_32(exp: usize) -> (r: usize)
    requires
        exp <= 11,
    ensures
        r == 32 * pow2(exp as nat),
{
    proof {
        lemma2_to64();
    }
    let mut i: usize = 0;
    let mut base: usize = 32;
    while i < exp
        invariant
            i <= exp <= 11,
            base == 32 * pow2(i as nat),
        decreases exp - i,
    {
        proof {
            lemma2_to64();
            lemma_pow2_adds(i as nat, 1);
            lemma_pow2_increase((i + 1) as nat, 11);
        }
        base = base * 2;
        i = i + 1;
    }
    base
}

/// Helper for `nearest`: relates the ceiling-increment arithmetic to
/// `class_size` for the class it picks. `steps` is 8 below class 32 and 4
/// above; `base` is the octave base and `incrs` the chosen tweak.
proof fn lemma_nearest_sized(exp: int, base: int, s: int, incrs: int, steps: int)
    requires
        steps == 8 || steps == 4,
        steps == 8 ==> 0 <= exp < 4,
        steps == 4 ==> 4 <= exp,
        base == 32 * pow2(exp as nat),
        base < s <= base * 2,
        s <= 98304,
        incrs == (s - base + base / steps - 1) / (base / steps),
    ensures
        ({
            let c = if steps == 8 {
                exp * 8 + incrs
            } else {
                32 + (exp - 4) * 4 + incrs
            };
            &&& 1 <= incrs <= steps
            &&& 0 < c < 63
            &&& class_size(c) >= s
            &&& class_size(c - 1) < s
        }),
{
    lemma2_to64();
    lemma_pow2_pos(exp as nat);
    let p = pow2(exp as nat) as int;
    let unit: int = if steps == 8 {
        4 * p
    } else {
        8 * p
    };
    assert(base == unit * steps);
    let incr = base / steps;
    lemma_div_by_multiple(unit, steps);
    assert(incr == unit);
    assert(incr >= 4);
    let rem = s - base;
    assert(1 <= rem <= base);
    // Ceiling-division facts for incrs == ceil(rem / incr).
    lemma_fundamental_div_mod(rem + incr - 1, incr);
    let r0 = (rem + incr - 1) % incr;
    assert(rem + incr - 1 == incr * incrs + r0);
    assert(incr * incrs >= rem);
    assert(incr * (incrs - 1) < rem) by (nonlinear_arith)
        requires
            rem + incr - 1 == incr * incrs + r0,
            0 <= r0 < incr,
    ;
    assert(incrs >= 1) by (nonlinear_arith)
        requires
            incr * incrs >= rem,
            rem >= 1,
            incr > 0,
    ;
    assert(incrs <= steps) by (nonlinear_arith)
        requires
            incr * (incrs - 1) < rem,
            rem <= base,
            base == incr * steps,
            incr > 0,
    ;
    if steps == 8 {
        let c = exp * 8 + incrs;
        assert(0 < c <= 32);
        lemma_class_size_eval(c);
        lemma_class_size_eval(c - 1);
        if incrs == 8 {
            if c == 32 {
                // Class 32 opens the quarter-step regime; its base doubles.
                assert(exp == 3);
                assert(32 as int / 4 - 4 == 4 && 32 as int % 4 == 0);
                assert(class_size(32) == 32 * 16 + 8 * 16 * 0);
                assert(pow2(4) == 2 * pow2(3));
            } else {
                lemma_fundamental_div_mod_converse(c, 8, exp + 1, 0);
                lemma_pow2_adds(exp as nat, 1);
                assert(pow2((exp + 1) as nat) == pow2(exp as nat) * 2);
                assert(class_size(c) == 32 * (2 * p) + 4 * (2 * p) * 0);
            }
            assert(class_size(c) == 2 * base);
        } else {
            lemma_fundamental_div_mod_converse(c, 8, exp, incrs);
            assert(class_size(c) == 32 * p + 4 * p * incrs);
            assert(4 * p * incrs == incr * incrs) by (nonlinear_arith)
                requires
                    incr == 4 * p,
            ;
        }
        assert(class_size(c) >= s);
        if incrs == 1 {
            lemma_fundamental_div_mod_converse(c - 1, 8, exp, 0);
            assert(class_size(c - 1) == 32 * p + 4 * p * 0);
        } else {
            lemma_fundamental_div_mod_converse(c - 1, 8, exp, incrs - 1);
            assert(class_size(c - 1) == 32 * p + 4 * p * (incrs - 1));
            assert(4 * p * (incrs - 1) == incr * (incrs - 1)) by (nonlinear_arith)
                requires
                    incr == 4 * p,
            ;
        }
        assert(class_size(c - 1) < s);
    } else {
        let c = 32 + (exp - 4) * 4 + incrs;
        assert(c == 4 * (exp + 4) + incrs);
        assert(c > 32);
        // The largest class reachable here is 62: for exponent 12 the octave
        // base would already exceed the largest sized payload.
        if exp >= 12 {
            lemma_pow2_increase(12, exp as nat);
            assert(base >= 32 * 4096);
            assert(false);
        }
        if exp == 11 && incrs >= 3 {
            assert(base == 65536);
            assert(incr == 16384);
            assert(incr * (incrs - 1) >= 32768) by (nonlinear_arith)
                requires
                    incrs >= 3,
                    incr == 16384,
            ;
            assert(false);
        }
        assert(c < 63);
        lemma_class_size_eval(c);
        lemma_class_size_eval(c - 1);
        if incrs == 4 {
            lemma_fundamental_div_mod_converse(c, 4, exp + 5, 0);
            lemma_pow2_adds(exp as nat, 1);
            assert(pow2((exp + 1) as nat) == pow2(exp as nat) * 2);
            assert(class_size(c) == 32 * (2 * p) + 8 * (2 * p) * 0);
            assert(class_size(c) == 2 * base);
        } else {
            lemma_fundamental_div_mod_converse(c, 4, exp + 4, incrs);
            assert(class_size(c) == 32 * p + 8 * p * incrs);
            assert(8 * p * incrs == incr * incrs) by (nonlinear_arith)
                requires
                    incr == 8 * p,
            ;
        }
        assert(class_size(c) >= s);
        if incrs == 1 {
            lemma_fundamental_div_mod_converse(c - 1, 4, exp + 4, 0);
            assert(class_size(c - 1) == 32 * p + 8 * p * 0);
        } else {
            lemma_fundamental_div_mod_converse(c - 1, 4, exp + 4, incrs - 1);
            assert(class_size(c - 1) == 32 * p + 8 * p * (incrs - 1));
            assert(8 * p * (incrs - 1) == incr * (incrs - 1)) by (nonlinear_arith)
                requires
                    incr == 8 * p,
            ;
        }
        assert(class_size(c - 1) < s);
    }
}

impl DatumSize {
    /// A well-formed value: the sized variant only carries a class below
    /// `MAX_SIZE`.
    pub open spec fn wf(self) -> bool {
        match self {
            DatumSize::Oversize => true,
            DatumSize::Size(c) => c < MAX_SIZE,
        }
    }

    /// The class code: the sized class itself, or `MAX_SIZE` for oversize.
    pub open spec fn spec_code(self) -> int {
        match self {
            DatumSize::Oversize => MAX_SIZE as int,
            DatumSize::Size(c) => c as int,
        }
    }

    /// The size of a datum of this class, or `None` if it is oversize.
    pub fn size(&self) -> (r: Option<usize>)
        requires
            self.wf(),
        ensures
            match *self {
                DatumSize::Oversize => r is None,
                DatumSize::Size(c) => r == Some(class_size(c as int) as usize),
            },
    {
        match *self {
            DatumSize::Oversize => None,
            DatumSize::Size(size_class) => {
                proof {
                    lemma_class_size_bounds(size_class as int);
                    lemma_class_size_eval(size_class as int);
                }
                if size_class < 32 {
                    let exp: usize = size_class as usize / 8;
                    let tweak: usize = size_class as usize % 8;
                    let base: usize = pow2_times_32(exp);
                    proof {
                        lemma_div_by_multiple(4 * pow2(exp as nat) as int, 8);
                        assert(base == (4 * pow2(exp as nat) as int) * 8);
                    }
                    Some(base + base / 8 * tweak)
                } else {
                    let exp: usize = size_class as usize / 4 - 4;
                    let tweak: usize = size_class as usize % 4;
                    let base: usize = pow2_times_32(exp);
                    proof {
                        lemma_div_by_multiple(8 * pow2(exp as nat) as int, 4);
                        assert(base == (8 * pow2(exp as nat) as int) * 4);
                    }
                    Some(base + base / 4 * tweak)
                }
            }
        }
    }

    /// The nearest class for an actual payload of `s` bytes: the smallest
    /// sized class whose size is at least `s`, or `Oversize` if none fits.
    pub fn nearest(s: usize) -> (r: Self)
        ensures
            r.wf(),
            match r {
                DatumSize::Oversize => s > 98304,
                DatumSize::Size(c) => {
                    &&& class_size(c as int) >= s
                    &&& c > 0 ==> class_size(c as int - 1) < s
                },
            },
    {
        if s <= 32 {
            proof {
                lemma_class_size_bounds(0);
            }
            return DatumSize::Size(0);
        }
        if s > 98304 {
            return DatumSize::Oversize;
        }
        let mut exp: usize = 0;
        let mut base: usize = 32;
        proof {
            lemma2_to64();
        }
        while s > base * 2
            invariant
                exp <= 11,
                base == 32 * pow2(exp as nat),
                base < s <= 98304,
            decreases 98304 - base,
        {
            proof {
                lemma2_to64();
                lemma_pow2_adds(exp as nat, 1);
                if exp + 1 > 11 {
                    lemma_pow2_increase(11, exp as nat);
                    assert(base >= 32 * 2048);
                    assert(false);
                }
            }
            base = base * 2;
            exp = exp + 1;
        }
        proof {
            lemma_pow2_pos(exp as nat);
            lemma2_to64();
            lemma_pow2_increase(exp as nat, 11);
        }
        let rem: usize = s - base;
        if exp < 4 {
            let incr: usize = base / 8;
            proof {
                lemma_div_by_multiple(4 * pow2(exp as nat) as int, 8);
                assert(base == (4 * pow2(exp as nat) as int) * 8);
            }
            let incrs: usize = (rem + incr - 1) / incr;
            let result: usize = exp * 8 + incrs;
            proof {
                lemma_nearest_sized(exp as int, base as int, s as int, incrs as int, 8);
            }
            DatumSize::Size(result as u8)
        } else {
            let incr: usize = base / 4;
            proof {
                lemma_div_by_multiple(8 * pow2(exp as nat) as int, 4);
                assert(base == (8 * pow2(exp as nat) as int) * 4);
            }
            let incrs: usize = (rem + incr - 1) / incr;
            let result: usize = 32 + (exp - 4) * 4 + incrs;
            proof {
                lemma_nearest_sized(exp as int, base as int, s as int, incrs as int, 4);
            }
            DatumSize::Size(result as u8)
        }
    }

    /// How many slots a contents table of this class holds.
    pub fn contents_entries(&self) -> (r: usize)
        requires
            self.wf(),
        ensures
            match *self {
                DatumSize::Oversize => r == 1,
                DatumSize::Size(c) => r == class_entries(c as int),
            },
            1 <= r <= 65536,
    {
        match self.size() {
            Some(size) => {
                proof {
                    if let DatumSize::Size(c) = *self {
                        lemma_class_size_bounds(c as int);
                    }
                    assert((2048 * 1024) as int / (size as int) >= 1) by (nonlinear_arith)
                        requires
                            32 <= size <= 98304,
                    ;
                }
                let q: usize = 2048 * 1024 / size;
                if q > 65536 {
                    65536
                } else {
                    q
                }
            }
            None => 1,
        }
    }

    /// How many bytes the payload area of a contents table of this class
    /// takes, or `None` for oversize, whose payloads live in external files.
    pub fn contents_size(&self) -> (r: Option<usize>)
        requires
            self.wf(),
        ensures
            match *self {
                DatumSize::Oversize => r is None,
                DatumSize::Size(c) => r == Some(
                    (class_size(c as int) * class_entries(c as int)) as usize,
                ),
            },
    {
        match self.size() {
            Some(s) => {
                let entries: usize = self.contents_entries();
                proof {
                    if let DatumSize::Size(c) = *self {
                        lemma_class_size_bounds(c as int);
                        let q: int = (2048 * 1024) as int / (s as int);
                        lemma_div_non_zero((2048 * 1024) as int, s as int);
                        assert(q >= 1);
                        assert(entries <= q);
                        lemma_fundamental_div_mod((2048 * 1024) as int, s as int);
                        assert((s as int) * q <= 2048 * 1024);
                        assert((s as int) * (entries as int) <= 2048 * 1024) by (nonlinear_arith)
                            requires
                                0 <= entries <= q,
                                s >= 1,
                                (s as int) * q <= 2048 * 1024,
                        ;
                    }
                }
                Some(s * entries)
            }
            None => None,
        }
    }

    /// The span of distinct payload sizes this class serves; oversize serves
    /// every size, reported as `usize::MAX`.
    pub fn size_range(&self) -> (r: usize)
        requires
            self.wf(),
        ensures
            match *self {
                DatumSize::Oversize => r == usize::MAX,
                DatumSize::Size(c) => r == class_size_range(c as int),
            },
    {
        match *self {
            DatumSize::Oversize => usize::MAX,
            DatumSize::Size(size_class) => {
                if size_class == 0 {
                    33
                } else if size_class <= 32 {
                    let exp: usize = size_class as usize / 8;
                    let tweak: usize = size_class as usize % 8;
                    let base: usize = pow2_times_32(exp);
                    proof {
                        lemma_div_by_multiple(4 * pow2(exp as nat) as int, 8);
                        assert(base == (4 * pow2(exp as nat) as int) * 8);
                        lemma_div_by_multiple(2 * pow2(exp as nat) as int, 2);
                        assert(4 * pow2(exp as nat) as int == (2 * pow2(exp as nat) as int) * 2);
                    }
                    if tweak == 0 {
                        base / 8 / 2
                    } else {
                        base / 8
                    }
                } else {
                    let exp: usize = size_class as usize / 4 - 4;
                    let tweak: usize = size_class as usize % 4;
                    let base: usize = pow2_times_32(exp);
                    proof {
                        lemma_div_by_multiple(8 * pow2(exp as nat) as int, 4);
                        assert(base == (8 * pow2(exp as nat) as int) * 4);
                        lemma_div_by_multiple(4 * pow2(exp as nat) as int, 2);
                        assert(8 * pow2(exp as nat) as int == (4 * pow2(exp as nat) as int) * 2);
                    }
                    if tweak == 0 {
                        base / 4 / 2
                    } else {
                        base / 4
                    }
                }
            }
        }
    }
}

impl From<u8> for DatumSize {
    /// The class for a code byte: codes below `MAX_SIZE` name a sized class,
    /// all others mean oversize.
    fn from(x: u8) -> (r: Self) {
        if x < MAX_SIZE {
            DatumSize::Size(x)
        } else {
            DatumSize::Oversize
        }
    }
}

impl vstd::std_specs::convert::FromSpecImpl<u8> for DatumSize {
    open spec fn obeys_from_spec() -> bool {
        true
    }

    open spec fn from_spec(x: u8) -> Self {
        if x < MAX_SIZE {
            DatumSize::Size(x)
        } else {
            DatumSize::Oversize
        }
    }
}

impl From<DatumSize> for u8 {
    /// The code byte for a class: the sized class itself, `MAX_SIZE` for
    /// oversize.
    fn from(x: DatumSize) -> (r: u8) {
        match x {
            DatumSize::Oversize => MAX_SIZE,
            DatumSize::Size(c) => c,
        }
    }
}

impl vstd::std_specs::convert::FromSpecImpl<DatumSize> for u8 {
    open spec fn obeys_from_spec() -> bool {
        true
    }

    open spec fn from_spec(x: DatumSize) -> Self {
        match x {
            DatumSize::Oversize => MAX_SIZE,
            DatumSize::Size(c) => c,
        }
    }
}

} // verus!
