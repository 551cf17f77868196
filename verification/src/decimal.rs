use vstd::prelude::*;
use vstd::utf8::*;

verus! {

/// The ASCII character of a single decimal digit.
pub open spec fn digit(d: nat) -> u8
    recommends
        d < 10,
{
    (0x30 + d) as u8
}

/// The decimal notation of a number in ASCII, most significant digit first,
/// without leading zeros.
pub open spec fn decimal(n: nat) -> Seq<u8>
    decreases n,
{
    if n < 10 {
        seq![digit(n)]
    } else {
        decimal(n / 10).push(digit(n % 10))
    }
}

/// Every byte of a decimal notation is an ASCII digit, and there is at least
/// one.
pub proof fn lemma_decimal_digits(n: nat)
    ensures
        decimal(n).len() >= 1,
        forall|i: int| 0 <= i < decimal(n).len() ==> 0x30 <= #[trigger] decimal(n)[i] <= 0x39,
    decreases n,
{
    if n >= 10 {
        lemma_decimal_digits(n / 10);
    }
}

/// Ten to the power of `k`.
pub open spec fn ten_to(k: nat) -> nat
    decreases k,
{
    if k == 0 {
        1
    } else {
        10 * ten_to((k - 1) as nat)
    }
}

/// A number below the `k`-th power of ten has at most `k` digits.
pub proof fn lemma_decimal_len_bound(n: nat, k: nat)
    requires
        k >= 1,
        n < ten_to(k),
    ensures
        decimal(n).len() <= k,
    decreases k,
{
    reveal_with_fuel(ten_to, 2);
    if n >= 10 {
        lemma_decimal_len_bound(n / 10, (k - 1) as nat);
    }
}

/// A machine-sized number has between one and twenty digits.
pub proof fn lemma_decimal_len(n: usize)
    ensures
        1 <= decimal(n as nat).len() <= 20,
{
    reveal_with_fuel(ten_to, 21);
    assert(ten_to(20) == 100000000000000000000);
    lemma_decimal_len_bound(n as nat, 20);
}

/// Bytes below `0x80` are each a character of their own, so any sequence of
/// them is well-formed UTF-8.
pub proof fn lemma_ascii_is_utf8(bytes: Seq<u8>)
    requires
        forall|i: int| 0 <= i < bytes.len() ==> #[trigger] bytes[i] < 0x80,
    ensures
        valid_utf8(bytes),
{
    assert(bytes.subrange(0, 0) =~= Seq::<u8>::empty());
    assert(partial_valid_utf8(bytes, 0));
    assert forall|i: int| 0 <= 0 <= i < bytes.len() <= bytes.len() implies #[trigger] is_leading_byte_width_1(
        bytes[i],
    ) by {}
    partial_valid_utf8_extend_ascii_block(bytes, 0, bytes.len() as int);
    assert(bytes.subrange(0, bytes.len() as int) =~= bytes);
}

/// A decimal notation is well-formed UTF-8.
pub proof fn lemma_decimal_is_utf8(n: nat)
    ensures
        valid_utf8(decimal(n)),
{
    lemma_decimal_digits(n);
    lemma_ascii_is_utf8(decimal(n));
}

/// Writes a number in decimal.
pub fn decimal_digits(n: usize) -> (r: Vec<u8>)
    ensures
        r@ == decimal(n as nat),
{
    let mut reversed: Vec<u8> = Vec::new();
    let low: u8 = (n % 10) as u8;
    reversed.push(0x30u8 + low);
    let mut rest: usize = n / 10;
    while rest > 0
        invariant
            reversed@.len() >= 1,
            decimal(n as nat) == (if rest > 0 {
                decimal(rest as nat)
            } else {
                Seq::<u8>::empty()
            }) + reversed@.reverse(),
        decreases rest,
    {
        let ghost before = reversed@;
        let low: u8 = (rest % 10) as u8;
        reversed.push(0x30u8 + low);
        proof {
            let r = rest as nat;
            let next = r / 10;
            let head = if next > 0 {
                decimal(next)
            } else {
                Seq::<u8>::empty()
            };
            assert(decimal(r) =~= head + seq![digit(r % 10)]);
            assert(reversed@.reverse() =~= seq![digit(r % 10)] + before.reverse());
            assert(decimal(r) + before.reverse() =~= head + reversed@.reverse());
        }
        rest = rest / 10;
    }
    let mut out: Vec<u8> = Vec::new();
    let mut i: usize = reversed.len();
    while i > 0
        invariant
            i <= reversed@.len(),
            out@ == reversed@.reverse().subrange(0, reversed@.len() - i),
        decreases i,
    {
        i = i - 1;
        out.push(reversed[i]);
        assert(out@ =~= reversed@.reverse().subrange(0, reversed@.len() - i));
    }
    assert(out@ =~= reversed@.reverse());
    out
}

} // verus!
