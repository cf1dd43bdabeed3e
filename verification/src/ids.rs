//! Item identities: 128-bit UUIDs, their text and the order of their texts.

use crate::text::{lemma_text_before_total, text_before};
use vstd::arithmetic::div_mod::{
    lemma_div_denominator, lemma_div_is_ordered, lemma_fundamental_div_mod,
};
use vstd::arithmetic::power::{lemma_pow0, lemma_pow_positive, pow};
use vstd::prelude::*;

verus! {

/// The identity of a clipboard item: the value of a UUID, most significant
/// byte first.
#[derive(Debug, Clone, Copy, PartialEq, Eq, Structural, Hash)]
pub struct ItemId {
    pub bits: u128,
}

/// The lowercase hexadecimal digit with value `d`.
pub open spec fn hex_char(d: int) -> char {
    if d < 10 {
        (48 + d) as char
    } else {
        (87 + d) as char
    }
}

/// The `k`-th of the 32 hexadecimal digits of `bits`, most significant first.
pub open spec fn nibble(bits: u128, k: int) -> int {
    (bits as int / pow(16, (31 - k) as nat)) % 16
}

/// How many hyphens stand before position `i` of the hyphenated text.
pub open spec fn hyphens_before(i: int) -> int {
    if i <= 8 {
        0
    } else if i <= 13 {
        1
    } else if i <= 18 {
        2
    } else if i <= 23 {
        3
    } else {
        4
    }
}

/// The hyphenated text of a UUID: 32 lowercase hexadecimal digits in groups of
/// 8, 4, 4, 4 and 12.
pub open spec fn hyphenated_text(bits: u128) -> Seq<char> {
    Seq::new(
        36,
        |i: int|
            if i == 8 || i == 13 || i == 18 || i == 23 {
                '-'
            } else {
                hex_char(nibble(bits, i - hyphens_before(i)))
            },
    )
}

/// What `Uuid::parse_str` makes of a text: the value, or the text of the error.
pub uninterp spec fn parsed_uuid(s: Seq<char>) -> Result<u128, Seq<char>>;

/// `Uuid::hyphenated` and its `Display`: the lowercase hyphenated form.
#[verifier::external_body]
pub(crate) fn hyphenated(id: ItemId) -> (r: String)
    ensures
        r@ == hyphenated_text(id.bits),
{
    uuid::Uuid::from_u128(id.bits).hyphenated().to_string()
}

/// `Uuid::parse_str`: the value that the text stands for, a function of the
/// text alone. A hyphenated text gives back the value that it was made of.
#[verifier::external_body]
pub(crate) fn parse_uuid_text(s: &str) -> (r: Result<ItemId, String>)
    ensures
        match r {
            Ok(id) => parsed_uuid(s@) == Ok::<u128, Seq<char>>(id.bits),
            Err(e) => parsed_uuid(s@) == Err::<u128, Seq<char>>(e@),
        },
        forall|u: u128| s@ == #[trigger] hyphenated_text(u) ==> r is Ok && r->Ok_0.bits == u,
{
    uuid::Uuid::parse_str(s).map(|u| ItemId { bits: u.as_u128() }).map_err(|e| e.to_string())
}

/// The identity carries version 7 and the standard variant.
pub open spec fn is_v7(id: ItemId) -> bool {
    (id.bits as int / pow(2, 76)) % 16 == 7 && (id.bits as int / pow(2, 62)) % 4 == 2
}

/// `Uuid::now_v7`: a new identity made of the time and of random bits. Of
/// every outcome holds that it carries version 7 and the standard variant;
/// that later identities are greater rests on the clock and is not stated. It
/// panics where the clock stands before 1970.
#[verifier::external_body]
pub(crate) fn now_v7() -> (r: ItemId)
    ensures
        is_v7(r),
{
    ItemId { bits: uuid::Uuid::now_v7().as_u128() }
}

impl ItemId {
    /// The identity whose bits are all zero.
    pub fn nil() -> (r: ItemId)
        ensures
            r.bits == 0,
    {
        ItemId { bits: 0 }
    }

    /// The lowercase hyphenated text, as it is printed and stored.
    pub fn to_text(self) -> (r: String)
        ensures
            r@ == hyphenated_text(self.bits),
    {
        hyphenated(self)
    }
}

// ---------------------------------------------------------------------------
// The order of identities and of their texts
// ---------------------------------------------------------------------------

/// The value of the first `n` hexadecimal digits of `bits`.
spec fn leading(bits: u128, n: int) -> int {
    bits as int / pow(16, (32 - n) as nat)
}

proof fn lemma_leading_step(bits: u128, n: int)
    requires
        0 <= n < 32,
    ensures
        leading(bits, n + 1) == 16 * leading(bits, n) + nibble(bits, n),
        0 <= nibble(bits, n) < 16,
{
    let p = pow(16, (31 - n) as nat);
    lemma_pow_positive(16, (31 - n) as nat);
    reveal(pow);
    assert(pow(16, (32 - n) as nat) == 16 * p);
    let u = bits as int;
    lemma_div_denominator(u, p, 16);
    assert(p * 16 == 16 * p);
    assert(leading(bits, n) == (u / p) / 16);
    lemma_fundamental_div_mod(u / p, 16);
}

proof fn lemma_leading_equal(a: u128, b: u128, n: int)
    requires
        0 <= n <= 32,
        forall|k: int| 0 <= k < n ==> nibble(a, k) == nibble(b, k),
    ensures
        leading(a, n) == leading(b, n),
    decreases n,
{
    if n == 0 {
        assert(pow(16, 32) == 0x1_0000_0000_0000_0000_0000_0000_0000_0000) by {
            reveal_with_fuel(pow, 33);
        }
        assert(leading(a, 0) == 0);
        assert(leading(b, 0) == 0);
    } else {
        lemma_leading_equal(a, b, n - 1);
        lemma_leading_step(a, n - 1);
        lemma_leading_step(b, n - 1);
    }
}

proof fn lemma_nibbles_determine(a: u128, b: u128)
    requires
        forall|k: int| 0 <= k < 32 ==> nibble(a, k) == nibble(b, k),
    ensures
        a == b,
{
    lemma_leading_equal(a, b, 32);
    lemma_pow0(16);
    assert(a as int / 1 == a as int);
    assert(b as int / 1 == b as int);
}

/// The first index below `limit` at which the digits differ, or `limit`.
spec fn first_difference(a: u128, b: u128, from: int, limit: int) -> int
    decreases limit - from,
{
    if from >= limit || nibble(a, from) != nibble(b, from) {
        from
    } else {
        first_difference(a, b, from + 1, limit)
    }
}

proof fn lemma_first_difference(a: u128, b: u128, from: int, limit: int)
    requires
        0 <= from <= limit,
        forall|k: int| 0 <= k < from ==> nibble(a, k) == nibble(b, k),
    ensures
        from <= first_difference(a, b, from, limit) <= limit,
        forall|k: int|
            0 <= k < first_difference(a, b, from, limit) ==> nibble(a, k) == nibble(b, k),
        first_difference(a, b, from, limit) < limit ==> nibble(
            a,
            first_difference(a, b, from, limit),
        ) != nibble(b, first_difference(a, b, from, limit)),
    decreases limit - from,
{
    if from < limit && nibble(a, from) == nibble(b, from) {
        lemma_first_difference(a, b, from + 1, limit);
    }
}

proof fn lemma_text_before_at(x: Seq<char>, y: Seq<char>, k: int)
    requires
        0 <= k < x.len(),
        k < y.len(),
        forall|j: int| 0 <= j < k ==> x[j] == y[j],
        x[k] < y[k],
    ensures
        text_before(x, y),
    decreases k,
{
    if k > 0 {
        assert(x.drop_first()[k - 1] == x[k]);
        assert(y.drop_first()[k - 1] == y[k]);
        lemma_text_before_at(x.drop_first(), y.drop_first(), k - 1);
    }
}

proof fn lemma_smaller_is_before(a: u128, b: u128)
    requires
        a < b,
    ensures
        text_before(hyphenated_text(a), hyphenated_text(b)),
{
    lemma_first_difference(a, b, 0, 32);
    let n = first_difference(a, b, 0, 32);
    if n == 32 {
        lemma_nibbles_determine(a, b);
    }
    lemma_leading_equal(a, b, n);
    lemma_leading_step(a, n);
    lemma_leading_step(b, n);
    lemma_pow_positive(16, (31 - n) as nat);
    lemma_div_is_ordered(a as int, b as int, pow(16, (31 - n) as nat));
    assert(nibble(a, n) < nibble(b, n));
    let at = if n < 8 {
        n
    } else if n < 12 {
        n + 1
    } else if n < 16 {
        n + 2
    } else if n < 20 {
        n + 3
    } else {
        n + 4
    };
    let x = hyphenated_text(a);
    let y = hyphenated_text(b);
    assert forall|j: int| 0 <= j < at implies x[j] == y[j] by {
        if !(j == 8 || j == 13 || j == 18 || j == 23) {
            assert(0 <= j - hyphens_before(j) < n);
        }
    }
    assert(at - hyphens_before(at) == n);
    lemma_text_before_at(x, y, at);
}

/// Texts stand in the order of the identities they belong to, so that a list
/// sorted by stored text is sorted by identity.
pub proof fn lemma_text_order_is_id_order(a: u128, b: u128)
    ensures
        text_before(hyphenated_text(a), hyphenated_text(b)) <==> a < b,
{
    lemma_text_before_total(hyphenated_text(a), hyphenated_text(b));
    lemma_text_before_total(hyphenated_text(b), hyphenated_text(a));
    if a < b {
        lemma_smaller_is_before(a, b);
    } else if b < a {
        lemma_smaller_is_before(b, a);
    }
}

/// Different identities have different texts.
pub proof fn lemma_text_is_injective(a: u128, b: u128)
    ensures
        hyphenated_text(a) == hyphenated_text(b) <==> a == b,
{
    lemma_text_order_is_id_order(a, b);
    lemma_text_order_is_id_order(b, a);
    lemma_text_before_total(hyphenated_text(a), hyphenated_text(b));
}

} // verus!
