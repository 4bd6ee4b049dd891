//! Text forms: hexadecimal accounts and decimal numbers.

use crate::account::AccountId;
use vstd::prelude::*;

verus! {

/// The lower-case hexadecimal digit of a value below 16.
pub open spec fn hex_digit(value: int) -> char {
    if value < 10 {
        (48 + value) as char
    } else {
        (87 + value) as char
    }
}

/// The lower-case hexadecimal text of some bytes: two digits each, the high half first.
pub open spec fn hex_text(bytes: Seq<u8>) -> Seq<char> {
    Seq::new(
        2 * bytes.len(),
        |i: int|
            hex_digit(
                if i % 2 == 0 {
                    bytes[i / 2] as int / 16
                } else {
                    bytes[i / 2] as int % 16
                },
            ),
    )
}

/// The text form of an account: `0x` and the hexadecimal text of its bytes.
pub open spec fn account_text(account: AccountId) -> Seq<char> {
    "0x"@ + hex_text(account.0@)
}

/// Calls `hex::encode`: the lower-case hexadecimal text of the bytes, two digits for each byte,
/// the digit of its high four bits first.
#[verifier::external_body]
fn hex_encode(bytes: &Vec<u8>) -> (r: String)
    ensures
        r@ == hex_text(bytes@),
{
    hex::encode(bytes)
}

/// Calls `Encode::encode` (the SCALE codec) on the runtime's `AccountId32` with these bytes: the
/// encoding of such an account is its 32 bytes as they stand, with no length before them.
#[verifier::external_body]
fn scale_encode(account: &AccountId) -> (r: Vec<u8>)
    ensures
        r@ == account.0@,
{
    parity_scale_codec::Encode::encode(&polkadot_sdk::sp_runtime::AccountId32::new(account.0))
}

/// The text form of an account.
pub fn account_hex(account: &AccountId) -> (r: String)
    ensures
        r@ == account_text(*account),
{
    let encoded = scale_encode(account);
    let digits = hex_encode(&encoded);
    let mut text: String = "0x".to_owned();
    text.append(digits.as_str());
    text
}

/// Decimal digits of a number, without leading zeros.
pub open spec fn decimal_text(n: nat) -> Seq<char>
    decreases n,
{
    if n < 10 {
        seq![hex_digit(n as int)]
    } else {
        decimal_text(n / 10).push(hex_digit((n % 10) as int))
    }
}

fn digit(n: usize) -> (r: &'static str)
    requires
        n < 10,
    ensures
        r@ == seq![hex_digit(n as int)],
{
    proof {
        reveal_strlit("0");
        reveal_strlit("1");
        reveal_strlit("2");
        reveal_strlit("3");
        reveal_strlit("4");
        reveal_strlit("5");
        reveal_strlit("6");
        reveal_strlit("7");
        reveal_strlit("8");
        reveal_strlit("9");
    }
    match n {
        0 => "0",
        1 => "1",
        2 => "2",
        3 => "3",
        4 => "4",
        5 => "5",
        6 => "6",
        7 => "7",
        8 => "8",
        _ => "9",
    }
}

/// The number in decimal digits.
pub fn decimal(n: usize) -> (r: String)
    ensures
        r@ == decimal_text(n as nat),
    decreases n,
{
    if n < 10 {
        digit(n).to_owned()
    } else {
        let mut text = decimal(n / 10);
        text.append(digit(n % 10));
        text
    }
}

/// The text of an account begins with `0x`. Behind that two lower-case hexadecimal digits stand
/// for each byte, in the order of the bytes: the number that they write is the byte.
pub proof fn account_text_writes_the_bytes(account: AccountId, i: int)
    requires
        0 <= i < 32,
    ensures
        account_text(account).len() == 66,
        account_text(account)[0] == '0',
        account_text(account)[1] == 'x',
        ({
            let high = account_text(account)[2 + 2 * i] as int;
            let low = account_text(account)[3 + 2 * i] as int;
            &&& 48 <= high <= 57 || 97 <= high <= 102
            &&& 48 <= low <= 57 || 97 <= low <= 102
            &&& account.0@[i] == 16 * (if high <= 57 {
                high - 48
            } else {
                high - 87
            }) + (if low <= 57 {
                low - 48
            } else {
                low - 87
            })
        }),
{
    reveal_strlit("0x");
    assert(account_text(account)[2 + 2 * i] == hex_text(account.0@)[2 * i]);
    assert(account_text(account)[3 + 2 * i] == hex_text(account.0@)[2 * i + 1]);
    assert((2 * i) / 2 == i && (2 * i + 1) / 2 == i);
}

/// The decimal text of a number consists of decimal digits, has no leading zero unless it is one
/// digit, and read as a decimal number it is that number.
pub proof fn decimal_text_writes_the_number(n: nat)
    ensures
        decimal_text(n).len() > 0,
        forall|i: int|
            0 <= i < decimal_text(n).len() ==> '0' <= #[trigger] decimal_text(n)[i] <= '9',
        decimal_text(n)[0] == '0' ==> decimal_text(n).len() == 1,
        decimal_text(n).fold_left(0int, |sum: int, c: char| 10 * sum + (c as int - 48)) == n,
    decreases n,
{
    let text = decimal_text(n);
    let read = |sum: int, c: char| 10 * sum + (c as int - 48);
    if n < 10 {
        assert(text.drop_last() =~= Seq::empty());
        assert(text.drop_last().fold_left(0int, read) == 0);
        assert(text.last() as int == 48 + n);
    } else {
        decimal_text_writes_the_number(n / 10);
        assert(text.drop_last() =~= decimal_text(n / 10));
        assert(text.last() as int == 48 + n % 10);
        if text[0] == '0' {
            assert(decimal_text(n / 10)[0] == '0');
            let before = decimal_text(n / 10);
            assert(before.drop_last() =~= Seq::empty());
            assert(before.drop_last().fold_left(0int, read) == 0);
            assert(before.fold_left(0int, read) == 0);
        }
        assert forall|i: int| 0 <= i < text.len() implies '0' <= #[trigger] text[i] <= '9' by {
            if i < text.len() - 1 {
                assert(text[i] == decimal_text(n / 10)[i]);
            }
        }
    }
}

/// A digit determines its value.
proof fn lemma_hex_digit_injective(a: int, b: int)
    requires
        0 <= a < 16,
        0 <= b < 16,
        hex_digit(a) == hex_digit(b),
    ensures
        a == b,
{
}

/// The text form of an account has 66 characters and determines the account.
pub proof fn account_text_injective(a: AccountId, b: AccountId)
    ensures
        account_text(a).len() == 66,
        account_text(a) == account_text(b) ==> a == b,
{
    reveal_strlit("0x");
    if account_text(a) == account_text(b) {
        assert forall|i: int| 0 <= i < 32 implies a.0@[i] == b.0@[i] by {
            let high = account_text(a)[2 + 2 * i];
            let low = account_text(a)[2 + (2 * i + 1)];
            assert(high == account_text(b)[2 + 2 * i]);
            assert(low == account_text(b)[2 + (2 * i + 1)]);
            assert(hex_text(a.0@)[2 * i] == hex_text(b.0@)[2 * i]);
            assert(hex_text(a.0@)[2 * i + 1] == hex_text(b.0@)[2 * i + 1]);
            lemma_hex_digit_injective(a.0@[i] as int / 16, b.0@[i] as int / 16);
            lemma_hex_digit_injective(a.0@[i] as int % 16, b.0@[i] as int % 16);
        }
        assert(a.0 =~= b.0);
    }
}

} // verus!
