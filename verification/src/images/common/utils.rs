use vstd::prelude::*;

verus! {

/// Number of bytes that must follow `num` bytes so that the total becomes
/// a multiple of `padding_base`.
pub open spec fn padding_num(num: int, padding_base: int) -> int {
    (padding_base - num % padding_base) % padding_base
}

/// Returns how many bytes are missing from `num` to reach the next multiple
/// of `padding_base` (zero when `num` already is one).
pub fn get_padding_num(num: u32, padding_base: u32) -> (r: u32)
    requires
        padding_base > 0,
    ensures
        r == padding_num(num as int, padding_base as int),
        r < padding_base,
        (num + r) % (padding_base as int) == 0,
{
    let r = (padding_base - (num % padding_base)) % padding_base;
    assert(((num as int) + padding_num(num as int, padding_base as int)) % (padding_base as int) == 0) by (nonlinear_arith)
        requires padding_base > 0;
    r
}

/// Rounds `num` up to the next multiple of `padding_base`.
pub fn padding_to_base(num: u32, padding_base: u32) -> (r: u32)
    requires
        padding_base > 0,
        num + padding_num(num as int, padding_base as int) <= u32::MAX,
    ensures
        r == num + padding_num(num as int, padding_base as int),
        (r as int) % (padding_base as int) == 0,
        num <= r < num + padding_base,
{
    num + get_padding_num(num, padding_base)
}

} // verus!
