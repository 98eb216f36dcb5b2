//! Sizes and alignments of memory blocks.
use vstd::arithmetic::power2::is_pow2;
use vstd::prelude::*;

verus! {

/// The largest size an allocation may have.
pub const MAX_SIZE: u64 = 0x7fff_ffff_ffff_ffff;

/// The size and alignment of a block of memory.
#[derive(Clone, Copy, Debug, PartialEq, Eq, Structural)]
pub struct Layout {
    /// The size in bytes.
    pub size: u64,
    /// The alignment in bytes, a power of two.
    pub align: u64,
}

/// The least multiple of `align` that is no less than `n`.
pub open spec fn round_up(n: int, align: int) -> int {
    ((n + align - 1) / align) * align
}

/// The greater of two numbers.
pub open spec fn max(a: int, b: int) -> int {
    if a >= b {
        a
    } else {
        b
    }
}

/// A size and an alignment make a layout when the alignment is a power of two
/// and the size, rounded up to it, is no larger than [`MAX_SIZE`].
pub open spec fn is_layout(size: int, align: int) -> bool {
    is_pow2(align) && size + align - 1 <= MAX_SIZE
}

/// The position of `next` when it is placed behind `first`.
pub open spec fn next_offset(first: Layout, next: Layout) -> int {
    round_up(first.size as int, next.align as int)
}

/// Can `next` be placed behind `first` in one block?
pub open spec fn can_extend(first: Layout, next: Layout) -> bool {
    is_layout(
        next_offset(first, next) + next.size,
        max(first.align as int, next.align as int),
    )
}

/// The layout of a block that holds `first` and, behind it, `next`.
pub open spec fn extended(first: Layout, next: Layout) -> Layout {
    Layout {
        size: (next_offset(first, next) + next.size) as u64,
        align: max(first.align as int, next.align as int) as u64,
    }
}

/// What rounding up means: the result is a multiple of the alignment, no less
/// than the number and less than one alignment above it.
pub proof fn lemma_round_up(n: int, align: int)
    requires
        align > 0,
        n >= 0,
    ensures
        round_up(n, align) % align == 0,
        n <= round_up(n, align) < n + align,
{
    let q = (n + align - 1) / align;
    vstd::arithmetic::div_mod::lemma_fundamental_div_mod(n + align - 1, align);
    vstd::arithmetic::mul::lemma_mul_is_commutative(q, align);
    vstd::arithmetic::div_mod::lemma_mod_multiples_basic(q, align);
}

/// Rounding up is padding with what is missing to the next multiple.
proof fn lemma_round_up_pads(n: int, align: int)
    requires
        align > 0,
        n >= 0,
    ensures
        round_up(n, align) == (if n % align == 0 {
            n
        } else {
            n + (align - n % align)
        }),
{
    let m = if n % align == 0 {
        n
    } else {
        n + (align - n % align)
    };
    lemma_round_up(n, align);
    vstd::arithmetic::div_mod::lemma_fundamental_div_mod(n, align);
    let k = n / align + (if n % align == 0 {
        0int
    } else {
        1int
    });
    let q = (n + align - 1) / align;
    assert(m == align * k) by (nonlinear_arith)
        requires
            n == align * (n / align) + n % align,
            k == n / align + (if n % align == 0 {
                0int
            } else {
                1int
            }),
            m == (if n % align == 0 {
                n
            } else {
                n + (align - n % align)
            }),
    ;
    assert(0 <= n % align < align);
    assert(q * align - align < m < q * align + align);
    assert(q == k) by (nonlinear_arith)
        requires
            align > 0,
            m == align * k,
            q * align - align < m < q * align + align,
    ;
    assert(align * k == q * align) by (nonlinear_arith)
        requires
            q == k,
    ;
}

/// Rounding the size of a word up to the alignment of a layout.
pub(crate) proof fn lemma_word_rounds_up(layout: Layout)
    requires
        layout.wf(),
    ensures
        layout.align > 0,
        round_up(8, layout.align as int) == (if 8int % layout.align as int == 0 {
            8
        } else {
            8 + (layout.align - 8int % layout.align as int)
        }),
{
    reveal_with_fuel(is_pow2, 2);
    lemma_round_up_pads(8, layout.align as int);
}

/// A power of two divides every power of two that is no less.
proof fn lemma_pow2_divides(a: int, b: int)
    requires
        is_pow2(a),
        is_pow2(b),
        a <= b,
    ensures
        b % a == 0,
    decreases b,
{
    reveal_with_fuel(is_pow2, 2);
    if a > 1 {
        lemma_pow2_divides(a / 2, b / 2);
        let q = (b / 2) / (a / 2);
        vstd::arithmetic::div_mod::lemma_fundamental_div_mod(b / 2, a / 2);
        assert(b == a * q) by (nonlinear_arith)
            requires
                b / 2 == (a / 2) * q,
                b == 2 * (b / 2),
                a == 2 * (a / 2),
        ;
        vstd::arithmetic::div_mod::lemma_mod_multiples_basic(q, a);
        vstd::arithmetic::mul::lemma_mul_is_commutative(q, a);
    }
}

impl Layout {
    /// The size and the alignment make a layout.
    pub open spec fn wf(self) -> bool {
        is_layout(self.size as int, self.align as int)
    }

    /// Makes a layout of a size and an alignment. There is none when the
    /// alignment is not a power of two or the size is too large for it.
    pub fn from_size_align(size: u64, align: u64) -> (r: Option<Layout>)
        ensures
            r is Some <==> is_layout(size as int, align as int),
            r is Some <==> is_pow2(align as int) && size + align <= 0x8000_0000_0000_0000,
            r matches Some(l) ==> l == (Layout { size, align }),
    {
        if !is_power_of_two(align) {
            return None;
        }
        proof {
            reveal_with_fuel(is_pow2, 2);
        }
        if align - 1 <= MAX_SIZE && size <= MAX_SIZE - (align - 1) {
            Some(Layout { size, align })
        } else {
            None
        }
    }

    /// The layout of a value of type `T`.
    pub fn new<T>() -> (r: Layout)
        ensures
            r.wf(),
            r.size == vstd::layout::size_of::<T>(),
            r.align == vstd::layout::align_of::<T>(),
    {
        vstd::layout::layout_for_type_is_valid::<T>();
        let size = core::mem::size_of::<T>();
        let align = core::mem::align_of::<T>();
        proof {
            let m = isize::MAX as int;
            let a = align as int;
            reveal_with_fuel(is_pow2, 65);
            assert(is_pow2(0x8000_0000_0000_0000));
            assert(is_pow2(0x8000_0000));
            assert(is_pow2(a));
            if a <= m + 1 {
                lemma_pow2_divides(a, m + 1);
                vstd::arithmetic::div_mod::lemma_fundamental_div_mod(m + 1, a);
                let q = (m + 1) / a;
                assert(a * q - a == (q - 1) * a) by (nonlinear_arith);
                vstd::arithmetic::div_mod::lemma_fundamental_div_mod_converse(
                    m,
                    a,
                    q - 1,
                    a - 1,
                );
            } else {
                lemma_pow2_divides(m + 1, a);
                vstd::arithmetic::div_mod::lemma_fundamental_div_mod(a, m + 1);
                let q = a / (m + 1);
                assert(a >= 2 * (m + 1)) by (nonlinear_arith)
                    requires
                        a == (m + 1) * q,
                        a > m + 1,
                        m > 0,
                ;
                assert(false);
            }
        }
        Layout { size: size as u64, align: align as u64 }
    }

    /// The layout of a block that holds a value of this layout and, behind it,
    /// one of layout `next`, with the position of the latter. There is none
    /// when the block would be too large.
    pub fn extend(self, next: Layout) -> (r: Option<(Layout, u64)>)
        requires
            self.wf(),
            next.wf(),
        ensures
            r is Some <==> can_extend(self, next),
            r matches Some((l, offset)) ==> {
                &&& l == extended(self, next)
                &&& l.wf()
                &&& offset == next_offset(self, next)
            },
    {
        proof {
            reveal_with_fuel(is_pow2, 2);
            lemma_round_up_pads(self.size as int, next.align as int);
            lemma_round_up(self.size as int, next.align as int);
        }
        let over = self.size % next.align;
        let offset: u64 = if over == 0 {
            self.size
        } else {
            self.size + (next.align - over)
        };
        let align = if self.align >= next.align {
            self.align
        } else {
            next.align
        };
        if offset > MAX_SIZE {
            return None;
        }
        match Layout::from_size_align(offset + next.size, align) {
            Some(l) => Some((l, offset)),
            None => None,
        }
    }
}

/// Is the number a power of two?
fn is_power_of_two(n: u64) -> (r: bool)
    ensures
        r == is_pow2(n as int),
{
    let mut m = n;
    if m == 0 {
        proof {
            reveal_with_fuel(is_pow2, 1);
        }
        return false;
    }
    while m % 2 == 0
        invariant
            m > 0,
            is_pow2(m as int) == is_pow2(n as int),
        decreases m,
    {
        proof {
            reveal_with_fuel(is_pow2, 2);
        }
        m = m / 2;
    }
    proof {
        reveal_with_fuel(is_pow2, 2);
    }
    m == 1
}

/// Rounding up gives the least multiple of the alignment that is no less than the
/// number.
pub proof fn law_round_up_is_least(n: int, align: int, m: int)
    requires
        align > 0,
        n >= 0,
        m >= n,
        m % align == 0,
    ensures
        round_up(n, align) % align == 0,
        n <= round_up(n, align) <= m,
{
    lemma_round_up(n, align);
    let r = round_up(n, align);
    vstd::arithmetic::div_mod::lemma_fundamental_div_mod(m, align);
    vstd::arithmetic::div_mod::lemma_fundamental_div_mod(r, align);
    let a = m / align;
    let b = r / align;
    if m < r {
        assert(a >= b || align * a <= align * b - align) by (nonlinear_arith)
            requires
                align > 0,
        ;
        assert(a < b) by (nonlinear_arith)
            requires
                align * a < align * b,
                align > 0,
        ;
    }
}

/// A size and an alignment make a layout exactly when the alignment is a power of
/// two and the size, rounded up to it, is less than half the address space.
pub proof fn law_layouts(size: u64, align: u64)
    ensures
        is_layout(size as int, align as int) <==> is_pow2(align as int) && size + (align - 1)
            < 0x8000_0000_0000_0000,
        (Layout { size, align }).wf() <==> is_layout(size as int, align as int),
{
}

/// Of two values in one block, the second stands at the first multiple of its
/// alignment behind the first, and the block ends with it. The block is as
/// aligned as either. There is one exactly when that is a layout.
pub proof fn law_second_value_follows_the_first(first: Layout, next: Layout, m: int)
    requires
        first.wf(),
        next.wf(),
        m >= first.size,
        m % (next.align as int) == 0,
    ensures
        next_offset(first, next) % (next.align as int) == 0,
        first.size <= next_offset(first, next) <= m,
        ({
            let align = if first.align < next.align {
                next.align
            } else {
                first.align
            };
            &&& can_extend(first, next) <==> next_offset(first, next) + next.size + (align - 1)
                < 0x8000_0000_0000_0000
            &&& can_extend(first, next) ==> extended(first, next).size == next_offset(first, next)
                + next.size
            &&& extended(first, next).align == align
        }),
{
    reveal_with_fuel(is_pow2, 2);
    law_round_up_is_least(first.size as int, next.align as int, m);
}

/// The greater of two numbers is one of them and no less than either.
pub proof fn law_max(a: int, b: int)
    ensures
        max(a, b) >= a,
        max(a, b) >= b,
        max(a, b) == a || max(a, b) == b,
{
}

} // verus!
