//! Size and alignment of a block of memory, and the arithmetic that places one
//! block behind another.

use vstd::arithmetic::div_mod::lemma_mod_multiples_basic;
use vstd::arithmetic::power::pow;
use vstd::arithmetic::power2::{
    is_pow2, is_pow2_equiv, is_pow2_exists, lemma2_to64, lemma2_to64_rest, lemma_pow2,
};
use vstd::layout::{align_of, layout_for_type_is_valid, size_of};
use vstd::prelude::*;

verus! {

/// The least multiple of `align` that is at least `n`.
pub open spec fn round_up(n: int, align: int) -> int
    recommends
        0 <= n,
        0 < align,
{
    if n % align == 0 {
        n
    } else {
        n + (align - n % align)
    }
}

/// `round_up(n, align)` is a multiple of `align`, is at least `n`, and is less
/// than `n + align`: no multiple of `align` lies between `n` and it.
pub proof fn lemma_round_up(n: int, align: int)
    requires
        0 <= n,
        0 < align,
    ensures
        round_up(n, align) % align == 0,
        n <= round_up(n, align) < n + align,
{
    let r = n % align;
    if r != 0 {
        assert((n + (align - r)) % align == 0) by (nonlinear_arith)
            requires
                r == n % align,
                0 < align,
                0 <= n,
        ;
    }
}

/// Whether `size` bytes aligned to `align` make a layout: `align` is a power of
/// two, and `size` rounded up to `align` does not exceed `isize::MAX`.
pub open spec fn valid_layout(size: int, align: int) -> bool {
    &&& 0 <= size
    &&& is_pow2(align)
    &&& round_up(size, align) <= isize::MAX
}

/// Of two powers of two the smaller divides the larger.
proof fn lemma_pow2_divides(a: int, b: int)
    requires
        is_pow2(a),
        is_pow2(b),
        a <= b,
    ensures
        b % a == 0,
    decreases a,
{
    reveal(is_pow2);
    if a > 1 {
        lemma_pow2_divides(a / 2, b / 2);
        let k = (b / 2) / (a / 2);
        assert(b == k * a) by (nonlinear_arith)
            requires
                a == 2 * (a / 2),
                b == 2 * (b / 2),
                b / 2 == (a / 2) * k,
        ;
        lemma_mod_multiples_basic(k, a);
    }
}

/// `isize::MAX + 1` is a power of two.
proof fn lemma_isize_range_is_pow2()
    ensures
        is_pow2(isize::MAX + 1),
{
    lemma2_to64();
    lemma2_to64_rest();
    let e: nat = if usize::BITS == 32 {
        31
    } else {
        63
    };
    assert(pow(2, e) == isize::MAX + 1) by {
        lemma_pow2(e);
    }
    is_pow2_equiv(isize::MAX + 1);
}

/// For an alignment that a `usize` holds, a size rounds up to at most
/// `isize::MAX` exactly if it is at most `isize::MAX` less what `isize::MAX`
/// leaves when divided by the alignment.
proof fn lemma_size_limit(size: int, align: int)
    requires
        0 <= size,
        is_pow2(align),
        align <= usize::MAX,
    ensures
        round_up(size, align) <= isize::MAX <==> size <= isize::MAX - (isize::MAX as int) % align,
{
    let max = isize::MAX as int;
    lemma_isize_range_is_pow2();
    assert(align >= 1) by {
        reveal(is_pow2);
    }
    if align > max + 1 {
        lemma_pow2_divides(max + 1, align);
        assert(align >= 2 * (max + 1)) by (nonlinear_arith)
            requires
                align % (max + 1) == 0,
                align > max + 1,
                max + 1 > 0,
        ;
    }
    lemma_pow2_divides(align, max + 1);
    lemma_round_up(size, align);
    let up = round_up(size, align);
    assert(max % align == align - 1) by (nonlinear_arith)
        requires
            (max + 1) % align == 0,
            align >= 1,
            max >= 0,
    ;
    let limit = max + 1 - align;
    assert(limit % align == 0) by (nonlinear_arith)
        requires
            (max + 1) % align == 0,
            align >= 1,
            limit == max + 1 - align,
            limit >= 0,
    ;
    if size <= limit {
        assert(up <= limit) by (nonlinear_arith)
            requires
                up % align == 0,
                limit % align == 0,
                size <= up < size + align,
                size <= limit,
                align >= 1,
        ;
    }
    if up <= max {
        assert(up <= limit) by (nonlinear_arith)
            requires
                up % align == 0,
                (max + 1) % align == 0,
                up <= max,
                limit == max + 1 - align,
                align >= 1,
        ;
    }
}

/// Whether `n` is a power of two.
fn is_power_of_two(n: usize) -> (r: bool)
    ensures
        r == is_pow2(n as int),
        r ==> n > 0,
{
    if n == 0 {
        proof {
            reveal(is_pow2);
        }
        return false;
    }
    let mut m: usize = n;
    while m % 2 == 0
        invariant
            0 < m <= n,
            is_pow2(m as int) == is_pow2(n as int),
        decreases m,
    {
        proof {
            reveal(is_pow2);
        }
        m = m / 2;
    }
    proof {
        reveal(is_pow2);
    }
    m == 1
}

/// The largest size that a layout aligned to `align` can have.
fn size_limit(align: usize) -> (r: usize)
    requires
        is_pow2(align as int),
    ensures
        forall|size: int| 0 <= size ==> (size <= r <==> #[trigger] round_up(size, align as int)
            <= isize::MAX),
{
    proof {
        reveal(is_pow2);
        assert forall|size: int| 0 <= size implies (size <= isize::MAX - (isize::MAX as int) % (
        align as int) <==> #[trigger] round_up(size, align as int) <= isize::MAX) by {
            lemma_size_limit(size, align as int);
        }
    }
    let max: usize = isize::MAX as usize;
    let slack: usize = max % align;
    assert(slack <= max) by (nonlinear_arith)
        requires
            slack == max % align,
            align > 0,
    ;
    max - slack
}

/// Size and alignment of a block of memory.
///
/// The alignment is a power of two, and the size, rounded up to the alignment,
/// does not exceed `isize::MAX`.
#[derive(Clone, Copy, Debug)]
pub struct Layout {
    size: usize,
    align: usize,
}

impl Layout {
    #[verifier::type_invariant]
    pub closed spec fn inv(self) -> bool {
        valid_layout(self.size as int, self.align as int)
    }

    pub closed spec fn spec_size(&self) -> usize {
        self.size
    }

    pub closed spec fn spec_align(&self) -> usize {
        self.align
    }

    /// What every layout satisfies.
    pub open spec fn wf(&self) -> bool {
        valid_layout(self.size() as int, self.align() as int)
    }

    /// Where `next` starts when it is placed behind `self`: the size of `self`
    /// rounded up to the alignment of `next`.
    pub open spec fn extend_offset(&self, next: Layout) -> int {
        round_up(self.size() as int, next.align() as int)
    }

    /// The size of `self` followed by `next`, with no padding behind `next`.
    pub open spec fn extend_size(&self, next: Layout) -> int {
        self.extend_offset(next) + next.size()
    }

    /// The alignment of `self` followed by `next`: the larger of the two.
    pub open spec fn extend_align(&self, next: Layout) -> int {
        if self.align() >= next.align() {
            self.align() as int
        } else {
            next.align() as int
        }
    }

    /// The layout of `size` bytes aligned to `align`, unless `align` is no
    /// power of two or `size`, rounded up to `align`, exceeds `isize::MAX`.
    pub fn from_size_align(size: usize, align: usize) -> (r: Option<Layout>)
        ensures
            r is Some <==> valid_layout(size as int, align as int),
            r matches Some(l) ==> l.size() == size && l.align() == align,
    {
        if !is_power_of_two(align) {
            return None;
        }
        if size > size_limit(align) {
            return None;
        }
        Some(Layout { size, align })
    }

    /// The layout of `self` followed by `next`, and the offset at which `next`
    /// starts in it: `self`, then the least padding that aligns `next`, then
    /// `next`, and no padding behind it. `None` if the whole is no layout.
    pub fn extend(&self, next: Layout) -> (r: Option<(Layout, usize)>)
        ensures
            r is Some <==> valid_layout(self.extend_size(next), self.extend_align(next)),
            r matches Some((whole, offset)) ==> {
                &&& offset == self.extend_offset(next)
                &&& whole.size() == self.extend_size(next)
                &&& whole.align() == self.extend_align(next)
            },
    {
        proof {
            use_type_invariant(self);
            use_type_invariant(&next);
            reveal(is_pow2);
        }
        let align: usize = if self.align >= next.align {
            self.align
        } else {
            next.align
        };
        let rest: usize = self.size % next.align;
        let pad: usize = if rest == 0 {
            0
        } else {
            next.align - rest
        };
        let offset: usize = match self.size.checked_add(pad) {
            Some(offset) => offset,
            None => {
                return None;
            },
        };
        let size: usize = match offset.checked_add(next.size) {
            Some(size) => size,
            None => {
                return None;
            },
        };
        if size > size_limit(align) {
            return None;
        }
        Some((Layout { size, align }, offset))
    }

    /// The layout of `n` values of type `T` in a row, or `None` if that is no
    /// layout.
    pub fn array<T>(n: usize) -> (r: Option<Layout>)
        ensures
            r is Some <==> valid_layout(n * size_of::<T>(), align_of::<T>() as int),
            r matches Some(l) ==> l.size() == n * size_of::<T>() && l.align() == align_of::<T>(),
    {
        layout_for_type_is_valid::<T>();
        let align: usize = core::mem::align_of::<T>();
        let size: usize = match n.checked_mul(core::mem::size_of::<T>()) {
            Some(size) => size,
            None => {
                return None;
            },
        };
        if size > size_limit(align) {
            return None;
        }
        Some(Layout { size, align })
    }

    /// The layout of a value of type `T`.
    pub fn new<T>() -> (r: Layout)
        ensures
            r.size() == size_of::<T>(),
            r.align() == align_of::<T>(),
    {
        layout_for_type_is_valid::<T>();
        Layout { size: core::mem::size_of::<T>(), align: core::mem::align_of::<T>() }
    }

    /// The size in bytes.
    #[verifier::when_used_as_spec(spec_size)]
    pub fn size(&self) -> (r: usize)
        ensures
            r == self.size(),
            self.wf(),
    {
        proof {
            use_type_invariant(self);
        }
        self.size
    }

    /// The alignment in bytes.
    #[verifier::when_used_as_spec(spec_align)]
    pub fn align(&self) -> (r: usize)
        ensures
            r == self.align(),
            self.wf(),
    {
        proof {
            use_type_invariant(self);
        }
        self.align
    }
}

} // verus!
