//! The persisted state layout: which file holds which stream's log.
//!
//! The data directory holds one append-only file per stream. Its name is
//! made of the stream id alone, in fixed-width hexadecimal, so that no two
//! streams share a file and the names sort as the ids do.

use vstd::arithmetic::div_mod::lemma_div_denominator;
use vstd::prelude::*;
use vstd::string::{StrSliceExecFns, StringExecFns};

verus! {

/// The lower-case hexadecimal digit for `n`, which is below 16.
pub open spec fn hex_digit(n: nat) -> char {
    if n < 10 {
        ('0' as nat + n) as char
    } else {
        ('a' as nat + n - 10) as char
    }
}

/// 16 to the power `n`.
pub open spec fn pow16(n: nat) -> nat
    decreases n,
{
    if n == 0 {
        1
    } else {
        16 * pow16((n - 1) as nat)
    }
}

/// The `width` low-order hexadecimal digits of `x`, most significant first.
pub open spec fn hex_digits(x: nat, width: nat) -> Seq<char>
    decreases width,
{
    if width == 0 {
        Seq::empty()
    } else {
        hex_digits(x / 16, (width - 1) as nat).push(hex_digit(x % 16))
    }
}

/// What every log file's name starts with.
pub open spec fn name_prefix() -> Seq<char> {
    seq!['s', 't', 'r', 'e', 'a', 'm', '-']
}

/// What every log file's name ends in.
pub open spec fn name_suffix() -> Seq<char> {
    seq!['.', 'l', 'o', 'g']
}

/// The name of the stream's log file: `stream-`, the id in sixteen
/// hexadecimal digits, `.log`.
pub open spec fn file_name_of(stream_id: u64) -> Seq<char> {
    name_prefix() + hex_digits(stream_id as nat, 16) + name_suffix()
}

/// Whether `a` comes before `b` where names are sorted character by
/// character.
pub open spec fn sorts_before(a: Seq<char>, b: Seq<char>) -> bool {
    exists|k: int|
        0 <= k < a.len() && k < b.len() && a.take(k) == b.take(k) && (#[trigger] a[k] as u32)
            < b[k] as u32
}

fn hex_str(n: u64) -> (digit: &'static str)
    requires
        n < 16,
    ensures
        digit@ == seq![hex_digit(n as nat)],
{
    proof {
        reveal_strlit("0");
        reveal_strlit("1");
        reveal_strlit("2");
        reveal_strlit("3");
        reveal_strlit("4");
        reveal_strlit("5");
        reveal_strlit("6");
        reveal_strlit("7");
        reveal_strlit("8");
        reveal_strlit("9");
        reveal_strlit("a");
        reveal_strlit("b");
        reveal_strlit("c");
        reveal_strlit("d");
        reveal_strlit("e");
        reveal_strlit("f");
    }
    let digit: &'static str = match n {
        0 => "0",
        1 => "1",
        2 => "2",
        3 => "3",
        4 => "4",
        5 => "5",
        6 => "6",
        7 => "7",
        8 => "8",
        9 => "9",
        10 => "a",
        11 => "b",
        12 => "c",
        13 => "d",
        14 => "e",
        _ => "f",
    };
    assert(digit@ =~= seq![hex_digit(n as nat)]);
    digit
}

/// The name of the file that holds the log of `stream_id`.
pub fn stream_file_name(stream_id: u64) -> (name: String)
    ensures
        name@ == file_name_of(stream_id),
{
    proof {
        reveal_strlit("stream-");
        reveal_strlit(".log");
    }
    let mut name = String::from_str("stream-");
    assert(name@ =~= name_prefix());
    let mut place: u64 = 0x1000_0000_0000_0000;
    let mut left: u32 = 16;
    proof {
        reveal_with_fuel(pow16, 17);
        assert(name@ =~= name_prefix() + hex_digits(stream_id as nat / pow16(16), 0));
    }
    while left > 0
        invariant
            left <= 16,
            left > 0 ==> place == pow16((left - 1) as nat),
            name@ == name_prefix() + hex_digits(
                stream_id as nat / pow16(left as nat),
                (16 - left) as nat,
            ),
        decreases left,
    {
        proof {
            lemma_pow16_positive((left - 1) as nat);
        }
        let digit: u64 = (stream_id / place) % 16;
        let ghost before = name@;
        name.append(hex_str(digit));
        proof {
            let high = stream_id as nat / pow16(left as nat);
            let here = stream_id as nat / pow16((left - 1) as nat);
            lemma_pow16_positive((left - 1) as nat);
            lemma_div_denominator(stream_id as int, pow16((left - 1) as nat) as int, 16);
            assert(pow16(left as nat) == pow16((left - 1) as nat) * 16);
            assert(here / 16 == high);
            assert(hex_digits(here, (16 - left + 1) as nat) == hex_digits(
                high,
                (16 - left) as nat,
            ).push(hex_digit(here % 16)));
            assert(name@ =~= name_prefix() + hex_digits(here, (16 - left + 1) as nat));
        }
        left = left - 1;
        if left > 0 {
            proof {
                lemma_pow16_positive((left - 1) as nat);
            }
            place = place / 16;
        }
    }
    name.append(".log");
    proof {
        assert(pow16(0) == 1);
        assert(stream_id as nat / pow16(0) == stream_id as nat);
    }
    name
}

/// The number that a lower-case hexadecimal digit stands for, if `c` is one.
fn hex_value(c: char) -> (value: Option<u64>)
    ensures
        value matches Some(n) ==> n < 16 && hex_digit(n as nat) == c,
        value is None ==> forall|n: nat| n < 16 ==> hex_digit(n) != c,
{
    match c {
        '0' => Some(0),
        '1' => Some(1),
        '2' => Some(2),
        '3' => Some(3),
        '4' => Some(4),
        '5' => Some(5),
        '6' => Some(6),
        '7' => Some(7),
        '8' => Some(8),
        '9' => Some(9),
        'a' => Some(10),
        'b' => Some(11),
        'c' => Some(12),
        'd' => Some(13),
        'e' => Some(14),
        'f' => Some(15),
        _ => None,
    }
}

/// The stream whose log file is called `name`, if `name` is the name of a
/// stream's log file at all.
pub fn stream_of_file_name(name: &str) -> (r: Option<u64>)
    ensures
        r matches Some(id) ==> name@ == file_name_of(id),
        r is None ==> forall|id: u64| name@ != file_name_of(id),
{
    if name.unicode_len() != 27 {
        proof {
            assert forall|id: u64| name@ != file_name_of(id) by {
                lemma_file_name_chars(id);
            }
        }
        return None;
    }
    proof {
        reveal_strlit("stream-");
        reveal_strlit(".log");
    }
    let prefix: &str = "stream-";
    let suffix: &str = ".log";
    assert(prefix@ =~= name_prefix());
    assert(suffix@ =~= name_suffix());
    let mut i: usize = 0;
    while i < 7
        invariant
            i <= 7,
            name@.len() == 27,
            prefix@ == name_prefix(),
            forall|k: int| 0 <= k < i ==> name@[k] == name_prefix()[k],
        decreases 7 - i,
    {
        if name.get_char(i) != prefix.get_char(i) {
            proof {
                assert forall|id: u64| name@ != file_name_of(id) by {
                    lemma_file_name_chars(id);
                    assert(file_name_of(id)[i as int] == name_prefix()[i as int]);
                }
            }
            return None;
        }
        i = i + 1;
    }
    let mut id: u64 = 0;
    let mut k: usize = 0;
    proof {
        assert(name@.subrange(7, 7) =~= hex_digits(0, 0));
    }
    while k < 16
        invariant
            k <= 16,
            name@.len() == 27,
            id < pow16(k as nat),
            hex_digits(id as nat, k as nat) == name@.subrange(7, 7 + k),
        decreases 16 - k,
    {
        let c = name.get_char(7 + k);
        match hex_value(c) {
            Some(digit) => {
                proof {
                    lemma_pow16_monotone(k as nat, 15);
                    assert(pow16(15) == 0x1000_0000_0000_0000) by {
                        reveal_with_fuel(pow16, 16);
                    }
                    let more = id as nat * 16 + digit as nat;
                    assert(more / 16 == id as nat);
                    assert(more % 16 == digit as nat);
                    assert(hex_digits(more, (k + 1) as nat) == hex_digits(id as nat, k as nat).push(
                        hex_digit(digit as nat),
                    ));
                    assert(name@.subrange(7, 7 + k).push(c) =~= name@.subrange(7, 7 + k + 1));
                }
                id = id * 16 + digit;
            },
            None => {
                proof {
                    assert forall|other: u64| name@ != file_name_of(other) by {
                        lemma_file_name_chars(other);
                        lemma_hex_digits_are_digits(other as nat, 16, k as int);
                        assert(file_name_of(other)[7 + k] == hex_digits(other as nat, 16)[k as int]);
                    }
                }
                return None;
            },
        }
        k = k + 1;
    }
    let mut j: usize = 0;
    while j < 4
        invariant
            j <= 4,
            name@.len() == 27,
            suffix@ == name_suffix(),
            forall|k: int| 0 <= k < j ==> name@[23 + k] == name_suffix()[k],
        decreases 4 - j,
    {
        if name.get_char(23 + j) != suffix.get_char(j) {
            proof {
                assert forall|other: u64| name@ != file_name_of(other) by {
                    lemma_file_name_chars(other);
                    assert(file_name_of(other)[23 + j] == name_suffix()[j as int]);
                }
            }
            return None;
        }
        j = j + 1;
    }
    proof {
        lemma_hex_digits_len(id as nat, 16);
        assert(name@ =~= name_prefix() + name@.subrange(7, 23) + name_suffix());
    }
    Some(id)
}

/// The powers of 16 grow with the exponent.
pub proof fn lemma_pow16_monotone(a: nat, b: nat)
    requires
        a <= b,
    ensures
        pow16(a) <= pow16(b),
    decreases b,
{
    if a < b {
        lemma_pow16_monotone(a, (b - 1) as nat);
    }
}

/// Every digit of a number is one of the sixteen hexadecimal digits.
pub proof fn lemma_hex_digits_are_digits(x: nat, width: nat, k: int)
    requires
        0 <= k < width,
    ensures
        exists|n: nat| n < 16 && hex_digits(x, width)[k] == #[trigger] hex_digit(n),
    decreases width,
{
    lemma_hex_digits_len(x / 16, (width - 1) as nat);
    if k == width - 1 {
        assert(hex_digits(x, width)[k] == hex_digit(x % 16));
    } else {
        lemma_hex_digits_are_digits(x / 16, (width - 1) as nat, k);
        assert(hex_digits(x, width)[k] == hex_digits(x / 16, (width - 1) as nat)[k]);
    }
}

/// Where the parts of a log file's name lie.
pub proof fn lemma_file_name_chars(stream_id: u64)
    ensures
        file_name_of(stream_id).len() == 27,
        forall|k: int| 0 <= k < 7 ==> file_name_of(stream_id)[k] == name_prefix()[k],
        forall|k: int|
            0 <= k < 16 ==> file_name_of(stream_id)[7 + k] == hex_digits(stream_id as nat, 16)[k],
        forall|k: int| 0 <= k < 4 ==> file_name_of(stream_id)[23 + k] == name_suffix()[k],
{
    lemma_hex_digits_len(stream_id as nat, 16);
}

pub proof fn lemma_pow16_positive(n: nat)
    ensures
        pow16(n) > 0,
    decreases n,
{
    if n > 0 {
        lemma_pow16_positive((n - 1) as nat);
    }
}

/// The digits of a number have the width that was asked for.
pub proof fn lemma_hex_digits_len(x: nat, width: nat)
    ensures
        hex_digits(x, width).len() == width,
    decreases width,
{
    if width > 0 {
        lemma_hex_digits_len(x / 16, (width - 1) as nat);
    }
}

/// Two numbers that fit the width and have the same digits are the same.
pub proof fn lemma_hex_digits_injective(a: nat, b: nat, width: nat)
    requires
        a < pow16(width),
        b < pow16(width),
        hex_digits(a, width) == hex_digits(b, width),
    ensures
        a == b,
    decreases width,
{
    if width > 0 {
        let rest = (width - 1) as nat;
        let da = hex_digits(a / 16, rest);
        let db = hex_digits(b / 16, rest);
        lemma_hex_digits_len(a / 16, rest);
        lemma_hex_digits_len(b / 16, rest);
        assert(da =~= hex_digits(a, width).drop_last());
        assert(db =~= hex_digits(b, width).drop_last());
        assert(hex_digits(a, width).last() == hex_digit(a % 16));
        assert(hex_digits(b, width).last() == hex_digit(b % 16));
        lemma_hex_digits_injective(a / 16, b / 16, rest);
    }
}

/// Of two numbers that fit the width, the digits of the smaller sort first.
pub proof fn lemma_hex_digits_sort(a: nat, b: nat, width: nat)
    requires
        a < b < pow16(width),
    ensures
        sorts_before(hex_digits(a, width), hex_digits(b, width)),
    decreases width,
{
    let rest = (width - 1) as nat;
    let sa = hex_digits(a, width);
    let sb = hex_digits(b, width);
    let da = hex_digits(a / 16, rest);
    let db = hex_digits(b / 16, rest);
    lemma_hex_digits_len(a / 16, rest);
    lemma_hex_digits_len(b / 16, rest);
    lemma_hex_digits_len(a, width);
    lemma_hex_digits_len(b, width);
    if a / 16 < b / 16 {
        lemma_hex_digits_sort(a / 16, b / 16, rest);
        let k = choose|k: int|
            0 <= k < da.len() && k < db.len() && da.take(k) == db.take(k) && (#[trigger] da[k]
                as u32) < db[k] as u32;
        assert(sa.take(k) =~= da.take(k));
        assert(sb.take(k) =~= db.take(k));
        assert(sa[k] == da[k] && sb[k] == db[k]);
    } else {
        assert(a / 16 == b / 16);
        let k = rest as int;
        assert(sa.take(k) =~= da);
        assert(sb.take(k) =~= db);
        assert(sa[k] == hex_digit(a % 16) && sb[k] == hex_digit(b % 16));
        assert((sa[k] as u32) < sb[k] as u32);
    }
}

/// Fixed width: every log file's name has 27 characters.
pub proof fn lemma_file_name_len(stream_id: u64)
    ensures
        file_name_of(stream_id).len() == 27,
{
    lemma_hex_digits_len(stream_id as nat, 16);
}

/// Collision-freedom: two streams never share a log file.
pub proof fn lemma_file_names_distinct(a: u64, b: u64)
    requires
        file_name_of(a) == file_name_of(b),
    ensures
        a == b,
{
    let da = hex_digits(a as nat, 16);
    let db = hex_digits(b as nat, 16);
    lemma_hex_digits_len(a as nat, 16);
    lemma_hex_digits_len(b as nat, 16);
    assert(da =~= file_name_of(a).subrange(7, 23));
    assert(db =~= file_name_of(b).subrange(7, 23));
    assert(pow16(16) == 0x1_0000_0000_0000_0000) by {
        reveal_with_fuel(pow16, 17);
    }
    lemma_hex_digits_injective(a as nat, b as nat, 16);
}

/// Sortability: the log files' names sort as the stream ids do.
pub proof fn lemma_file_names_sort(a: u64, b: u64)
    requires
        a < b,
    ensures
        sorts_before(file_name_of(a), file_name_of(b)),
{
    let da = hex_digits(a as nat, 16);
    let db = hex_digits(b as nat, 16);
    let na = file_name_of(a);
    let nb = file_name_of(b);
    lemma_hex_digits_len(a as nat, 16);
    lemma_hex_digits_len(b as nat, 16);
    assert(pow16(16) == 0x1_0000_0000_0000_0000) by {
        reveal_with_fuel(pow16, 17);
    }
    lemma_hex_digits_sort(a as nat, b as nat, 16);
    let k = choose|k: int|
        0 <= k < da.len() && k < db.len() && da.take(k) == db.take(k) && (#[trigger] da[k] as u32)
            < db[k] as u32;
    assert(na.take(7 + k) =~= name_prefix() + da.take(k));
    assert(nb.take(7 + k) =~= name_prefix() + db.take(k));
    assert(na[7 + k] == da[k] && nb[7 + k] == db[k]);
}

} // verus!
