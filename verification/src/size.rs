//! What a file or a directory tree weighs, and how a number of bytes is
//! written for a reader.

use vstd::prelude::*;

verus! {

/// A file-system entry as it was found: a file of some size, a directory
/// with what it holds, or an entry that could not be read.
#[derive(Debug, PartialEq, Eq)]
pub enum FsNode {
    File { size: u64 },
    Dir { children: Vec<FsNode> },
    Unreadable,
}

/// Why a size could not be had.
#[derive(Clone, Copy, Debug, PartialEq, Eq)]
pub enum SizeError {
    /// The entry whose size was asked for could not be read itself.
    Unreadable,
}

impl FsNode {
    /// The bytes that an entry adds to what holds it: the size of a file,
    /// the sum over all that a directory holds, nothing for an entry that
    /// could not be read.
    pub open spec fn total(self) -> nat
        decreases self,
    {
        match self {
            FsNode::File { size } => size as nat,
            FsNode::Dir { children } => children_total(children@),
            FsNode::Unreadable => 0,
        }
    }
}

/// The sum of what each of the entries adds.
pub open spec fn children_total(children: Seq<FsNode>) -> nat
    decreases children,
{
    if children.len() == 0 {
        0
    } else {
        children_total(children.drop_last()) + children.last().total()
    }
}

/// The first entries of a directory never weigh more than all of them.
pub proof fn lemma_children_total_grows(children: Seq<FsNode>, n: int)
    requires
        0 <= n <= children.len(),
    ensures
        children_total(children.take(n)) <= children_total(children),
    decreases children.len() - n,
{
    if n < children.len() {
        lemma_children_total_grows(children, n + 1);
        assert(children.take(n + 1).drop_last() =~= children.take(n));
    } else {
        assert(children.take(n) =~= children);
    }
}

/// The weight of an entry, where it fits in 64 bits.
fn checked_total(node: &FsNode) -> (r: Option<u64>)
    ensures
        r == if node.total() <= u64::MAX {
            Some(node.total() as u64)
        } else {
            None::<u64>
        },
    decreases node,
{
    match node {
        FsNode::File { size } => Some(*size),
        FsNode::Unreadable => Some(0),
        FsNode::Dir { children } => {
            let mut sum: u64 = 0;
            let mut i: usize = 0;
            assert(children@.take(0) =~= Seq::empty());
            while i < children.len()
                invariant
                    i <= children.len(),
                    node is Dir,
                    node->children == *children,
                    sum == children_total(children@.take(i as int)),
                decreases children.len() - i,
            {
                proof {
                    assert(children@.take(i + 1).drop_last() =~= children@.take(i as int));
                    lemma_children_total_grows(children@, i + 1);
                    assert(decreases_to!(*children => children[i as int]));
                    assert(decreases_to!(node => node->children));
                }
                match checked_total(&children[i]) {
                    None => {
                        return None;
                    },
                    Some(part) => {
                        if part > u64::MAX - sum {
                            return None;
                        }
                        sum = sum + part;
                    },
                }
                i += 1;
            }
            assert(children@.take(i as int) =~= children@);
            Some(sum)
        },
    }
}

/// Whether the weight of an entry can be written in 64 bits.
pub fn size_fits(node: &FsNode) -> (r: bool)
    ensures
        r == (node.total() <= u64::MAX),
{
    checked_total(node).is_some()
}

/// The size of a file, or the sum of the sizes of all that a directory
/// tree holds. An entry inside the tree that could not be read counts as
/// nothing; only where the entry asked for could not be read itself is
/// there no size.
pub fn dir_size(node: &FsNode) -> (r: Result<u64, SizeError>)
    requires
        node.total() <= u64::MAX,
    ensures
        node is Unreadable ==> r == Err::<u64, SizeError>(SizeError::Unreadable),
        !(node is Unreadable) ==> r == Ok::<u64, SizeError>(node.total() as u64),
{
    match node {
        FsNode::Unreadable => Err(SizeError::Unreadable),
        _ => match checked_total(node) {
            Some(total) => Ok(total),
            None => Ok(0),
        },
    }
}

/// The size of an entry, or zero where there is none to be had.
pub fn size_or_zero(node: &FsNode) -> (r: u64)
    requires
        node.total() <= u64::MAX,
    ensures
        r == node.total(),
{
    match dir_size(node) {
        Ok(size) => size,
        Err(_) => 0,
    }
}

/// The bytes of a kilobyte, of a megabyte and of a gigabyte.
pub const KB: u64 = 1024;

pub const MB: u64 = 1048576;

pub const GB: u64 = 1073741824;

/// Below this, every whole number is a double-precision number.
pub const EXACT_LIMIT: u64 = 9007199254740992;

/// The whole number nearest to `num / den`; of two that are equally near,
/// the even one.
pub open spec fn round_half_even(num: nat, den: nat) -> nat
    recommends
        den > 0,
{
    let q = num / den;
    let r = num % den;
    if 2 * r < den || (2 * r == den && q % 2 == 0) {
        q
    } else {
        q + 1
    }
}

/// The distance between neighbouring double-precision numbers at `n`: one
/// up to 2^53, and twice as much each time `n` doubles.
pub open spec fn double_spacing(n: nat) -> nat
    decreases n,
{
    if n < EXACT_LIMIT {
        1
    } else {
        2 * double_spacing(n / 2)
    }
}

/// The double-precision number nearest to `n`; of two that are equally
/// near, the one whose last bit is zero.
pub open spec fn nearest_double(n: nat) -> nat {
    round_half_even(n, double_spacing(n)) * double_spacing(n)
}

/// A number of bytes in tenths of `unit`: the bytes as a double-precision
/// number, divided by the unit and rounded to one decimal place.
pub open spec fn tenths(bytes: nat, unit: nat) -> nat
    recommends
        unit > 0,
{
    round_half_even(10 * nearest_double(bytes), unit)
}

/// The character for a digit.
pub open spec fn digit(d: nat) -> char
    recommends
        d < 10,
{
    (d + 48) as char
}

/// A number in decimal digits.
pub open spec fn decimal(n: nat) -> Seq<char>
    decreases n,
{
    if n < 10 {
        seq![digit(n)]
    } else {
        decimal(n / 10).push(digit(n % 10))
    }
}

/// A number of tenths with one decimal place.
pub open spec fn one_decimal(t: nat) -> Seq<char> {
    decimal(t / 10) + seq!['.', digit(t % 10)]
}

/// A number of bytes as a reader sees it: in the largest unit of which
/// there is at least one, with one decimal place; below a kilobyte, the
/// plain number of bytes.
pub open spec fn human_size(bytes: nat) -> Seq<char> {
    if bytes >= GB {
        one_decimal(tenths(bytes, GB as nat)) + " GB"@
    } else if bytes >= MB {
        one_decimal(tenths(bytes, MB as nat)) + " MB"@
    } else if bytes >= KB {
        one_decimal(tenths(bytes, KB as nat)) + " KB"@
    } else {
        decimal(bytes) + " B"@
    }
}

/// The rounded quotient is a nearest whole number: it lies no more than
/// half a unit from the exact quotient, and where it lies exactly half a
/// unit from it, it is even.
pub proof fn lemma_round_half_even_is_nearest(num: nat, den: nat)
    requires
        den > 0,
    ensures
        -(den as int) <= 2 * (num - round_half_even(num, den) * den) <= den,
        2 * (num - round_half_even(num, den) * den) == den || 2 * (num - round_half_even(num, den)
            * den) == -(den as int) ==> round_half_even(num, den) % 2 == 0,
{
    let q = num / den;
    let r = num % den;
    assert(num == q * den + r && 0 <= r < den) by (nonlinear_arith)
        requires
            den > 0,
            q == num / den,
            r == num % den,
    ;
    assert((q + 1) * den == q * den + den) by (nonlinear_arith);
}

/// Every whole number below 2^53 is its own nearest double-precision
/// number.
pub proof fn lemma_small_numbers_are_exact(n: nat)
    requires
        n < EXACT_LIMIT,
    ensures
        nearest_double(n) == n,
{
    assert(double_spacing(n) == 1);
    assert(n / 1 == n && n % 1 == 0);
}

/// The string of one digit.
fn digit_str(d: u64) -> (r: &'static str)
    requires
        d < 10,
    ensures
        r@ == seq![digit(d as nat)],
{
    proof {
        reveal_strlit("0");
        reveal_strlit("1");
        reveal_strlit("2");
        reveal_strlit("3");
        reveal_strlit("4");
        reveal_strlit("5");
        reveal_strlit("6");
        reveal_strlit("7");
        reveal_strlit("8");
        reveal_strlit("9");
    }
    let r = if d == 0 {
        "0"
    } else if d == 1 {
        "1"
    } else if d == 2 {
        "2"
    } else if d == 3 {
        "3"
    } else if d == 4 {
        "4"
    } else if d == 5 {
        "5"
    } else if d == 6 {
        "6"
    } else if d == 7 {
        "7"
    } else if d == 8 {
        "8"
    } else {
        "9"
    };
    assert(r@ =~= seq![digit(d as nat)]);
    r
}

/// A number in decimal digits.
pub fn decimal_string(n: u64) -> (r: String)
    ensures
        r@ == decimal(n as nat),
    decreases n,
{
    if n < 10 {
        String::from_str(digit_str(n))
    } else {
        let mut out = decimal_string(n / 10);
        out.append(digit_str(n % 10));
        assert(out@ =~= decimal(n as nat));
        out
    }
}

/// The whole number nearest to `num / den`, the even one of two.
fn round_ratio(num: u128, den: u128) -> (r: u128)
    requires
        den > 0,
        num < u128::MAX,
    ensures
        r == round_half_even(num as nat, den as nat),
{
    let q: u128 = num / den;
    let r: u128 = num % den;
    assert(q <= num) by (nonlinear_arith)
        requires
            den > 0,
            q == num / den,
    ;
    if r < den - r || (r == den - r && q % 2 == 0) {
        q
    } else {
        q + 1
    }
}

/// The double-precision number nearest to a number of bytes.
fn to_nearest_double(bytes: u64) -> (r: u128)
    ensures
        r == nearest_double(bytes as nat),
        r <= bytes + 4096,
{
    let mut step: u64 = 1;
    let mut rest: u64 = bytes;
    while rest >= EXACT_LIMIT
        invariant
            step >= 1,
            step * rest <= bytes,
            step == 1 || rest >= 4503599627370496,
            double_spacing(bytes as nat) == step * double_spacing(rest as nat),
        decreases rest,
    {
        assert(step < 2048) by (nonlinear_arith)
            requires
                step * rest <= bytes,
                rest >= 9007199254740992,
                bytes <= 0xffff_ffff_ffff_ffff,
        ;
        let ghost half = double_spacing((rest / 2) as nat);
        assert(step * (2 * half) == (step * 2) * half) by (nonlinear_arith);
        assert((step * 2) * (rest / 2) <= step * rest) by (nonlinear_arith)
            requires
                step >= 1,
        ;
        rest = rest / 2;
        step = step * 2;
    }
    assert(step < 4096) by (nonlinear_arith)
        requires
            step * rest <= bytes,
            step == 1 || rest >= 4503599627370496,
            bytes <= 0xffff_ffff_ffff_ffff,
    ;
    assert(double_spacing(rest as nat) == 1);
    assert(double_spacing(bytes as nat) == step) by (nonlinear_arith)
        requires
            double_spacing(bytes as nat) == step * double_spacing(rest as nat),
            double_spacing(rest as nat) == 1,
    ;
    let rounded = round_ratio(bytes as u128, step as u128);
    assert(rounded * step <= bytes + step) by (nonlinear_arith)
        requires
            step >= 1,
            rounded <= bytes as nat / step as nat + 1,
    ;
    rounded * (step as u128)
}

/// A number of bytes in tenths of a unit, written with one decimal place.
fn scaled(bytes: u64, unit: u64) -> (r: String)
    requires
        unit == KB || unit == MB || unit == GB,
    ensures
        r@ == one_decimal(tenths(bytes as nat, unit as nat)),
{
    let nearest = to_nearest_double(bytes);
    let t = round_ratio(10 * nearest, unit as u128);
    assert(t < 0xffff_ffff_ffff_ffff);
    let whole: u64 = (t / 10) as u64;
    let part: u64 = (t % 10) as u64;
    let mut out = decimal_string(whole);
    out.append(".");
    out.append(digit_str(part));
    proof {
        reveal_strlit(".");
        assert(out@ =~= one_decimal(t as nat));
    }
    out
}

/// A number of bytes as a reader sees it: in gigabytes, megabytes or
/// kilobytes of 1024 bytes each, whichever is the largest of which there is
/// at least one, with one decimal place; below 1024, the plain number
/// followed by `B`.
pub fn format_size(bytes: u64) -> (r: String)
    ensures
        r@ == human_size(bytes as nat),
{
    if bytes >= GB {
        let mut out = scaled(bytes, GB);
        out.append(" GB");
        out
    } else if bytes >= MB {
        let mut out = scaled(bytes, MB);
        out.append(" MB");
        out
    } else if bytes >= KB {
        let mut out = scaled(bytes, KB);
        out.append(" KB");
        out
    } else {
        let mut out = decimal_string(bytes);
        out.append(" B");
        out
    }
}

} // verus!
