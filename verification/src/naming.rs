//! File names under which blocks, witnesses and the bytecode table are stored.
//!
//! A block with number `n` and hash `h` is stored as `n.0xh.block.json`, its
//! witness as `n.0xh.w`: the number in decimal, the hash in lower-case
//! hexadecimal.

use vstd::prelude::*;
use vstd::string::*;

verus! {

/// The character that stands for a hexadecimal digit.
pub open spec fn hex_char(n: int) -> char {
    if n == 0 {
        '0'
    } else if n == 1 {
        '1'
    } else if n == 2 {
        '2'
    } else if n == 3 {
        '3'
    } else if n == 4 {
        '4'
    } else if n == 5 {
        '5'
    } else if n == 6 {
        '6'
    } else if n == 7 {
        '7'
    } else if n == 8 {
        '8'
    } else if n == 9 {
        '9'
    } else if n == 10 {
        'a'
    } else if n == 11 {
        'b'
    } else if n == 12 {
        'c'
    } else if n == 13 {
        'd'
    } else if n == 14 {
        'e'
    } else {
        'f'
    }
}

/// The lower-case hexadecimal form of `bytes`: two digits for each byte.
pub open spec fn hex_of(bytes: Seq<u8>) -> Seq<char>
    decreases bytes.len(),
{
    if bytes.len() == 0 {
        Seq::empty()
    } else {
        hex_of(bytes.drop_last()) + seq![
            hex_char(bytes.last() as int / 16),
            hex_char(bytes.last() as int % 16),
        ]
    }
}

/// The decimal form of `n`, without leading zeros.
pub open spec fn decimal_of(n: nat) -> Seq<char>
    decreases n,
{
    if n < 10 {
        seq![hex_char(n as int)]
    } else {
        decimal_of(n / 10).push(hex_char((n % 10) as int))
    }
}

/// The number and the hash with which every name of a block's files begins.
pub open spec fn name_stem(number: u64, hash: Seq<u8>) -> Seq<char> {
    decimal_of(number as nat) + "."@ + "0x"@ + hex_of(hash)
}

/// The name of the file that holds a block.
pub open spec fn block_name(number: u64, hash: Seq<u8>) -> Seq<char> {
    name_stem(number, hash) + ".block.json"@
}

/// The name of the file that holds a block's witness.
pub open spec fn witness_name(number: u64, hash: Seq<u8>) -> Seq<char> {
    name_stem(number, hash) + ".w"@
}

fn digit_str(n: u8) -> (s: &'static str)
    requires
        n < 16,
    ensures
        s@ == seq![hex_char(n as int)],
{
    proof {
        reveal_strlit("0");
        reveal_strlit("1");
        reveal_strlit("2");
        reveal_strlit("3");
        reveal_strlit("4");
        reveal_strlit("5");
        reveal_strlit("6");
        reveal_strlit("7");
        reveal_strlit("8");
        reveal_strlit("9");
        reveal_strlit("a");
        reveal_strlit("b");
        reveal_strlit("c");
        reveal_strlit("d");
        reveal_strlit("e");
        reveal_strlit("f");
    }
    let s = if n == 0 {
        "0"
    } else if n == 1 {
        "1"
    } else if n == 2 {
        "2"
    } else if n == 3 {
        "3"
    } else if n == 4 {
        "4"
    } else if n == 5 {
        "5"
    } else if n == 6 {
        "6"
    } else if n == 7 {
        "7"
    } else if n == 8 {
        "8"
    } else if n == 9 {
        "9"
    } else if n == 10 {
        "a"
    } else if n == 11 {
        "b"
    } else if n == 12 {
        "c"
    } else if n == 13 {
        "d"
    } else if n == 14 {
        "e"
    } else {
        "f"
    };
    assert(s@ =~= seq![hex_char(n as int)]);
    s
}

fn push_decimal(out: &mut String, n: u64)
    ensures
        final(out)@ == old(out)@ + decimal_of(n as nat),
    decreases n,
{
    if n >= 10 {
        push_decimal(out, n / 10);
    }
    out.append(digit_str((n % 10) as u8));
    assert(out@ =~= old(out)@ + decimal_of(n as nat));
}

fn push_hex(out: &mut String, bytes: &[u8])
    ensures
        final(out)@ == old(out)@ + hex_of(bytes@),
{
    let mut i: usize = 0;
    assert(bytes@.take(0) =~= Seq::empty());
    while i < bytes.len()
        invariant
            i <= bytes@.len(),
            out@ == old(out)@ + hex_of(bytes@.take(i as int)),
        decreases bytes@.len() - i,
    {
        assert(bytes@.take(i + 1).drop_last() =~= bytes@.take(i as int));
        out.append(digit_str(bytes[i] / 16));
        out.append(digit_str(bytes[i] % 16));
        i += 1;
        assert(out@ =~= old(out)@ + hex_of(bytes@.take(i as int)));
    }
    assert(bytes@.take(i as int) =~= bytes@);
}

/// The lower-case hexadecimal form of `bytes`.
pub fn hex_string(bytes: &[u8]) -> (text: String)
    ensures
        text@ == hex_of(bytes@),
{
    let mut text = String::new();
    push_hex(&mut text, bytes);
    text
}

fn stem(number: u64, hash: &[u8]) -> (name: String)
    ensures
        name@ == name_stem(number, hash@),
{
    let mut name = String::new();
    push_decimal(&mut name, number);
    name.append(".");
    name.append("0x");
    push_hex(&mut name, hash);
    assert(name@ =~= name_stem(number, hash@));
    name
}

/// Name of the file that holds the contract bytecode table.
pub fn contracts_file_name() -> (name: String)
    ensures
        name@ == "contracts.txt"@,
{
    "contracts.txt".to_string()
}

/// Name of the file that holds the block with the given number and hash.
pub fn block_file_name(block_num: u64, block_hash: &[u8]) -> (name: String)
    ensures
        name@ == block_name(block_num, block_hash@),
{
    let mut name = stem(block_num, block_hash);
    name.append(".block.json");
    name
}

/// Name of the file that holds the witness of the block with the given number
/// and hash.
pub fn witness_file_name(block_num: u64, block_hash: &[u8]) -> (name: String)
    ensures
        name@ == witness_name(block_num, block_hash@),
{
    let mut name = stem(block_num, block_hash);
    name.append(".w");
    name
}


/// The value of a lower-case hexadecimal digit.
pub open spec fn hex_value(c: char) -> Option<int> {
    if c == '0' {
        Some(0)
    } else if c == '1' {
        Some(1)
    } else if c == '2' {
        Some(2)
    } else if c == '3' {
        Some(3)
    } else if c == '4' {
        Some(4)
    } else if c == '5' {
        Some(5)
    } else if c == '6' {
        Some(6)
    } else if c == '7' {
        Some(7)
    } else if c == '8' {
        Some(8)
    } else if c == '9' {
        Some(9)
    } else if c == 'a' {
        Some(10)
    } else if c == 'b' {
        Some(11)
    } else if c == 'c' {
        Some(12)
    } else if c == 'd' {
        Some(13)
    } else if c == 'e' {
        Some(14)
    } else if c == 'f' {
        Some(15)
    } else {
        None
    }
}

fn digit_value(c: char) -> (v: Option<u8>)
    ensures
        match v {
            Some(n) => hex_value(c) == Some(n as int) && n < 16,
            None => hex_value(c) is None,
        },
{
    if c == '0' {
        Some(0)
    } else if c == '1' {
        Some(1)
    } else if c == '2' {
        Some(2)
    } else if c == '3' {
        Some(3)
    } else if c == '4' {
        Some(4)
    } else if c == '5' {
        Some(5)
    } else if c == '6' {
        Some(6)
    } else if c == '7' {
        Some(7)
    } else if c == '8' {
        Some(8)
    } else if c == '9' {
        Some(9)
    } else if c == 'a' {
        Some(10)
    } else if c == 'b' {
        Some(11)
    } else if c == 'c' {
        Some(12)
    } else if c == 'd' {
        Some(13)
    } else if c == 'e' {
        Some(14)
    } else if c == 'f' {
        Some(15)
    } else {
        None
    }
}

/// The hexadecimal form has two digits for each byte, the high half first.
pub proof fn lemma_hex_digits(bytes: Seq<u8>)
    ensures
        hex_of(bytes).len() == 2 * bytes.len(),
        forall|i: int|
            0 <= i < bytes.len() ==> hex_of(bytes)[2 * i] == hex_char(bytes[i] as int / 16)
                && hex_of(bytes)[2 * i + 1] == hex_char(bytes[i] as int % 16),
    decreases bytes.len(),
{
    if bytes.len() > 0 {
        let before = bytes.drop_last();
        lemma_hex_digits(before);
        assert forall|i: int| 0 <= i < bytes.len() implies hex_of(bytes)[2 * i] == hex_char(
            bytes[i] as int / 16,
        ) && hex_of(bytes)[2 * i + 1] == hex_char(bytes[i] as int % 16) by {
            if i < before.len() {
                assert(before[i] == bytes[i]);
                assert(hex_of(bytes)[2 * i] == hex_of(before)[2 * i]);
                assert(hex_of(bytes)[2 * i + 1] == hex_of(before)[2 * i + 1]);
            }
        }
    }
}

/// The 64 characters before the ending of a witness file's name are the
/// hexadecimal form of the hash.
proof fn lemma_name_tail(block_num: u64, h: Seq<u8>, name: Seq<char>, m: int)
    requires
        h.len() == 32,
        name == witness_name(block_num, h),
        0 <= m < 64,
    ensures
        name.len() >= 66,
        name[name.len() - 66 + m] == hex_of(h)[m],
{
    reveal_strlit(".w");
    lemma_hex_digits(h);
    let head = decimal_of(block_num as nat) + "."@ + "0x"@;
    let stem = name_stem(block_num, h);
    assert(stem == head + hex_of(h));
    assert(name == stem + ".w"@);
    assert(name.len() == head.len() + 64 + 2);
    assert(name[head.len() + m] == stem[head.len() + m]);
    assert(stem[head.len() + m] == hex_of(h)[m]);
}

/// The hash in the name of a witness file of the block with number `block_num`:
/// `None` where `name` is not such a name.
pub fn hash_from_witness_file_name(block_num: u64, name: &str) -> (hash: Option<Vec<u8>>)
    ensures
        hash matches Some(h) ==> h@.len() == 32 && name@ == witness_name(block_num, h@),
        forall|h: Seq<u8>|
            h.len() == 32 && name@ == witness_name(block_num, h) ==> (hash matches Some(x) && x@
                == h),
{
    let n = name.unicode_len();
    proof {
        assert forall|h: Seq<u8>| h.len() == 32 && name@ == witness_name(block_num, h) implies n
            >= 66 by {
            lemma_name_tail(block_num, h, name@, 0);
        }
    }
    if n < 66 {
        return None;
    }
    let start: usize = n - 66;
    let mut out: Vec<u8> = Vec::new();
    let mut i: usize = 0;
    while i < 32
        invariant
            i <= 32,
            n == name@.len(),
            n >= 66,
            start == n - 66,
            out@.len() == i,
            forall|j: int|
                0 <= j < i ==> hex_value(name@[start + 2 * j]) == Some(
                    #[trigger] out@[j] as int / 16,
                )
                    && hex_value(name@[start + 2 * j + 1]) == Some(out@[j] as int % 16),
        decreases 32 - i,
    {
        let hi = digit_value(name.get_char(start + 2 * i));
        let lo = digit_value(name.get_char(start + 2 * i + 1));
        match (hi, lo) {
            (Some(h), Some(l)) => {
                out.push(h * 16 + l);
            },
            _ => {
                proof {
                    assert forall|h: Seq<u8>|
                        h.len() == 32 && name@ == witness_name(block_num, h) implies false by {
                        lemma_hex_digits(h);
                        let tail = hex_of(h);
                        lemma_name_tail(block_num, h, name@, 2 * i);
                        lemma_name_tail(block_num, h, name@, 2 * i + 1);
                        assert(name@[start + 2 * i] == tail[2 * i]);
                        assert(name@[start + 2 * i + 1] == tail[2 * i + 1]);
                        assert(hex_value(hex_char(h[i as int] as int / 16)) is Some);
                        assert(hex_value(hex_char(h[i as int] as int % 16)) is Some);
                    }
                }
                return None;
            },
        }
        i += 1;
    }
    let expected = witness_file_name(block_num, out.as_slice());
    let same = expected == String::from_str(name);
    proof {
        assert forall|h: Seq<u8>| h.len() == 32 && name@ == witness_name(block_num, h) implies h
            == out@ by {
            lemma_hex_digits(h);
            let tail = hex_of(h);
            assert forall|j: int| 0 <= j < 32 implies h[j] == out@[j] by {
                lemma_name_tail(block_num, h, name@, 2 * j);
                lemma_name_tail(block_num, h, name@, 2 * j + 1);
                assert(name@[start + 2 * j] == tail[2 * j]);
                assert(name@[start + 2 * j + 1] == tail[2 * j + 1]);
                assert(hex_value(hex_char(h[j] as int / 16)) == Some(h[j] as int / 16));
                assert(hex_value(hex_char(h[j] as int % 16)) == Some(h[j] as int % 16));
                assert(hex_value(name@[start + 2 * j]) == Some(out@[j] as int / 16));
            }
            assert(h =~= out@);
        }
    }
    if same {
        Some(out)
    } else {
        None
    }
}

} // verus!
