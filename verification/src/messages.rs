//! The texts that users and the service get to read.

use vstd::prelude::*;
use vstd::string::StringExecFns;
use vstd::utf8::*;

use crate::outside::exact_text;

verus! {

/// The character of a decimal digit.
pub open spec fn digit(d: nat) -> char {
    ('0' as u32 + d) as char
}

/// `n` in decimal, without leading zeros.
pub open spec fn decimal(n: nat) -> Seq<char>
    decreases n,
{
    if n < 10 {
        seq![digit(n)]
    } else {
        decimal(n / 10).push(digit(n % 10))
    }
}

/// The nearest hundredth of a mebibyte to `len` bytes; of two equally near ones, the even one.
pub open spec fn mebibyte_hundredths(len: nat) -> nat {
    let floor = len * 100 / 0x10_0000;
    let rest = len * 100 % 0x10_0000;
    if rest > 0x8_0000 || rest == 0x8_0000 && floor % 2 == 1 {
        floor + 1
    } else {
        floor
    }
}

/// What the waiter for a bytecode of `len` bytes is told, if that is too large.
pub open spec fn too_large(len: nat) -> Seq<char> {
    let hundredths = mebibyte_hundredths(len);
    "bytecode too large ("@ + decimal(hundredths / 100) + "."@ + seq![
        digit(hundredths / 10 % 10),
        digit(hundredths % 10),
    ] + " mb) exceeds 8mb limit"@
}

/// The text of a decimal digit.
fn digit_text(d: u8) -> (text: &'static str)
    requires
        d < 10,
    ensures
        text@ == seq![digit(d as nat)],
{
    proof {
        reveal_strlit("0");
        reveal_strlit("1");
        reveal_strlit("2");
        reveal_strlit("3");
        reveal_strlit("4");
        reveal_strlit("5");
        reveal_strlit("6");
        reveal_strlit("7");
        reveal_strlit("8");
        reveal_strlit("9");
    }
    match d {
        0 => "0",
        1 => "1",
        2 => "2",
        3 => "3",
        4 => "4",
        5 => "5",
        6 => "6",
        7 => "7",
        8 => "8",
        _ => "9",
    }
}

/// Writes `n` in decimal.
pub fn decimal_text(n: u64) -> (text: String)
    ensures
        text@ == decimal(n as nat),
    decreases n,
{
    let last = digit_text((n % 10) as u8);
    if n < 10 {
        last.to_owned()
    } else {
        let mut text = decimal_text(n / 10);
        text.append(last);
        assert(text@ =~= decimal(n as nat));
        text
    }
}

/// Tells the waiter for a bytecode of `len` bytes that it is too large.
pub fn too_large_message(len: u32) -> (message: String)
    ensures
        message@ == too_large(len as nat),
{
    let scaled: u64 = len as u64 * 100;
    let floor: u64 = scaled / 0x10_0000;
    let rest: u64 = scaled % 0x10_0000;
    let hundredths: u64 = if rest > 0x8_0000 || (rest == 0x8_0000 && floor % 2 == 1) {
        floor + 1
    } else {
        floor
    };
    let mut message = "bytecode too large (".to_owned();
    message.append(decimal_text(hundredths / 100).as_str());
    message.append(".");
    message.append(digit_text((hundredths / 10 % 10) as u8));
    message.append(digit_text((hundredths % 10) as u8));
    message.append(" mb) exceeds 8mb limit");
    assert(message@ =~= too_large(len as nat));
    message
}

/// The header that lets a client with `token` in.
pub fn authorization(token: &str) -> (header: String)
    ensures
        header@ == "Bearer "@ + token@,
{
    let mut header = "Bearer ".to_owned();
    header.append(token);
    header
}

/// What a user is told when the service refuses the connection: the body of its response if that is
/// well-formed text, or else `response`, which describes the response.
pub fn refused_connection(body: Option<Vec<u8>>, response: &str) -> (message: String)
    ensures
        message@ == (match body {
            Some(bytes) if valid_utf8(bytes@) => decode_utf8(bytes@),
            _ => "http error: "@ + response@,
        }),
{
    if let Some(bytes) = body {
        if let Some(text) = exact_text(bytes) {
            return text;
        }
    }
    let mut message = "http error: ".to_owned();
    message.append(response);
    message
}

/// What a user is told when the document cannot be read any further.
pub fn unreadable_document(event_count: u64, error: &str) -> (message: String)
    ensures
        message@ == "xml parsing error at event #"@ + decimal(event_count as nat) + ": "@ + error@,
{
    let mut message = "xml parsing error at event #".to_owned();
    message.append(decimal_text(event_count).as_str());
    message.append(": ");
    message.append(error);
    message
}

/// What a user is told when the output file at `path` has been written, with its size if that could
/// be found out.
pub fn written_file(size: Option<u64>, path: &str) -> (message: String)
    ensures
        message@ == (match size {
            Some(bytes) => "wrote "@ + decimal(bytes as nat / 1024) + " KiB to "@ + path@,
            None => "wrote output file to "@ + path@,
        }),
{
    match size {
        Some(bytes) => {
            let mut message = "wrote ".to_owned();
            message.append(decimal_text(bytes / 1024).as_str());
            message.append(" KiB to ");
            message.append(path);
            message
        },
        None => {
            let mut message = "wrote output file to ".to_owned();
            message.append(path);
            message
        },
    }
}

/// Numbers are written as one reads them: one digit for a number below ten, and one digit more at the
/// end for ten times a number and a digit.
pub proof fn law_decimal_grows_digit_by_digit(n: nat, d: nat)
    requires
        d < 10,
    ensures
        decimal(d) == seq!["0123456789"@[d as int]],
        n > 0 ==> decimal(10 * n + d) == decimal(n).push("0123456789"@[d as int]),
{
    reveal_strlit("0123456789");
    assert((10 * n + d) / 10 == n);
    assert((10 * n + d) % 10 == d);
}

/// The size that is told is the nearest hundredth of a mebibyte: no more than half a hundredth away,
/// and the even one where two are as near.
pub proof fn law_size_is_rounded_to_the_nearest(len: nat)
    ensures
        ({
            let scaled = 100 * len as int;
            let told = 1024 * 1024 * mebibyte_hundredths(len) as int;
            &&& -512 * 1024 <= told - scaled <= 512 * 1024
            &&& told - scaled == 512 * 1024 || scaled - told == 512 * 1024
                ==> mebibyte_hundredths(len) % 2 == 0
        }),
{
    let floor = len * 100 / 0x10_0000;
    let rest = len * 100 % 0x10_0000;
    assert(len * 100 == 0x10_0000 * floor + rest);
    assert(0 <= rest < 0x10_0000);
    assert(1024 * 1024 * mebibyte_hundredths(len) as int == 0x10_0000 * mebibyte_hundredths(len))
        by (nonlinear_arith);
}

/// The refusal names the size in mebibytes, with two decimal places.
pub proof fn law_refusal_names_the_size(len: nat, whole: nat, tenths: nat, hundredths: nat)
    requires
        tenths < 10,
        hundredths < 10,
        mebibyte_hundredths(len) == 100 * whole + 10 * tenths + hundredths,
    ensures
        too_large(len) == "bytecode too large ("@ + decimal(whole) + "."@ + decimal(tenths)
            + decimal(hundredths) + " mb) exceeds 8mb limit"@,
{
    assert(decimal(tenths) + decimal(hundredths) =~= seq![digit(tenths), digit(hundredths)]);
    assert(too_large(len) =~= "bytecode too large ("@ + decimal(whole) + "."@ + decimal(tenths)
        + decimal(hundredths) + " mb) exceeds 8mb limit"@);
}

} // verus!
