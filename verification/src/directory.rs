//! The names of the directories that hold the partitions.
//!
//! The name of a partition may hold any printable character, a slash or a
//! dot among them, which a file system reads in its own way. A partition is
//! therefore kept in the directory whose name spells the name of the
//! partition in hexadecimal digits, two for each character.

use crate::journal::record::lemma_name_char;
use crate::partition::{check_name, is_name_char, is_valid_name, MAX_NAME_LEN};
use vstd::prelude::*;

verus! {

/// The hexadecimal digit of `d`, a number below sixteen.
pub open spec fn hex_digit(d: int) -> char {
    if d < 10 {
        (48 + d) as u8 as char
    } else {
        (87 + d) as u8 as char
    }
}

/// The number that the hexadecimal digit `c` stands for. What is no such
/// digit, a capital letter among it, gives a negative number.
pub open spec fn hex_value(c: char) -> int {
    let x = c as int;
    if 48 <= x <= 57 {
        x - 48
    } else if 97 <= x <= 102 {
        x - 87
    } else {
        -1
    }
}

/// The name of the directory of the partition `name`.
pub open spec fn directory_name(name: Seq<char>) -> Seq<char> {
    Seq::new(
        2 * name.len(),
        |i: int|
            hex_digit(
                if i % 2 == 0 {
                    (name[i / 2] as int) / 16
                } else {
                    (name[i / 2] as int) % 16
                },
            ),
    )
}

/// The name that the digits of `dir` spell, two digits for each character.
pub open spec fn spelled(dir: Seq<char>) -> Seq<char> {
    Seq::new(
        dir.len() / 2,
        |i: int| (16 * hex_value(dir[2 * i]) + hex_value(dir[2 * i + 1])) as u8 as char,
    )
}

/// Whether `dir` can be the name of the directory of a partition: pairs of
/// hexadecimal digits that spell a valid name.
pub open spec fn is_directory_name(dir: Seq<char>) -> bool {
    &&& dir.len() % 2 == 0
    &&& forall|i: int| 0 <= i < dir.len() ==> hex_value(#[trigger] dir[i]) >= 0
    &&& is_valid_name(spelled(dir))
}

/// A hexadecimal digit stands for its number.
pub proof fn lemma_hex_digit(d: int)
    requires
        0 <= d < 16,
    ensures
        hex_value(hex_digit(d)) == d,
{
}

/// The directory of a partition has a name that can be one, and that spells
/// the name of the partition: no two partitions share a directory.
pub proof fn lemma_directory_name(name: Seq<char>)
    requires
        is_valid_name(name),
    ensures
        is_directory_name(directory_name(name)),
        spelled(directory_name(name)) == name,
        directory_name(name).len() == 2 * name.len(),
{
    let dir = directory_name(name);
    assert forall|i: int| 0 <= i < dir.len() implies hex_value(#[trigger] dir[i]) >= 0 by {
        let c = name[i / 2];
        assert(is_name_char(c));
        lemma_name_char(c);
        lemma_hex_digit((c as int) / 16);
        lemma_hex_digit((c as int) % 16);
    }
    assert forall|i: int| 0 <= i < name.len() implies #[trigger] spelled(dir)[i] == name[i] by {
        let c = name[i];
        assert(is_name_char(c));
        lemma_name_char(c);
        lemma_hex_digit((c as int) / 16);
        lemma_hex_digit((c as int) % 16);
        assert((2 * i) / 2 == i && (2 * i) % 2 == 0);
        assert((2 * i + 1) / 2 == i && (2 * i + 1) % 2 == 1);
        assert(hex_value(dir[2 * i]) == (c as int) / 16);
        assert(hex_value(dir[2 * i + 1]) == (c as int) % 16);
        assert(16 * ((c as int) / 16) + (c as int) % 16 == c as int);
    }
    assert(spelled(dir) =~= name);
}

fn hex_char(d: u8) -> (c: char)
    requires
        d < 16,
    ensures
        c == hex_digit(d as int),
{
    if d < 10 {
        (48u8 + d) as char
    } else {
        (87u8 + d) as char
    }
}

fn hex_number(c: char) -> (r: Option<u8>)
    ensures
        match r {
            Some(d) => d < 16 && d == hex_value(c),
            None => hex_value(c) < 0,
        },
{
    let x: u32 = c as u32;
    if 48 <= x && x <= 57 {
        Some((x - 48) as u8)
    } else if 97 <= x && x <= 102 {
        Some((x - 87) as u8)
    } else {
        None
    }
}

/// The name of the directory of the partition `name`, or `None` if `name`
/// is not the name of a partition.
pub fn directory_of(name: &str) -> (r: Option<String>)
    ensures
        match r {
            Some(dir) => is_valid_name(name@) && dir@ == directory_name(name@),
            None => !is_valid_name(name@),
        },
{
    if !check_name(name) {
        return None;
    }
    let n = name.unicode_len();
    let mut out = String::new();
    let mut i: usize = 0;
    let ghost dir = directory_name(name@);
    while i < n
        invariant
            i <= n,
            n == name@.len(),
            n <= MAX_NAME_LEN,
            is_valid_name(name@),
            dir == directory_name(name@),
            out@ == dir.take(2 * i),
        decreases n - i,
    {
        let c = name.get_char(i);
        proof {
            assert(is_name_char(name@[i as int]));
            lemma_name_char(c);
        }
        let x: u8 = c as u8;
        out.push(hex_char(x / 16));
        out.push(hex_char(x % 16));
        proof {
            assert((2 * i) / 2 == i && (2 * i) % 2 == 0);
            assert((2 * i + 1) / 2 == i && (2 * i + 1) % 2 == 1);
            assert(out@ =~= dir.take(2 * (i + 1)));
        }
        i += 1;
    }
    assert(dir.take(2 * i) =~= dir);
    Some(out)
}

/// The name of the partition that the directory `dir` holds, or `None` if
/// `dir` is not the name of the directory of a partition.
pub fn partition_of(dir: &str) -> (r: Option<String>)
    ensures
        match r {
            Some(name) => is_directory_name(dir@) && name@ == spelled(dir@),
            None => !is_directory_name(dir@),
        },
{
    let n = dir.unicode_len();
    if n % 2 != 0 || n < 2 || n > 2 * MAX_NAME_LEN {
        return None;
    }
    let mut out = String::new();
    let mut i: usize = 0;
    let ghost name = spelled(dir@);
    while i < n / 2
        invariant
            i <= n / 2,
            n == dir@.len(),
            n % 2 == 0,
            name == spelled(dir@),
            out@ == name.take(i as int),
            forall|j: int| 0 <= j < 2 * i ==> hex_value(#[trigger] dir@[j]) >= 0,
            forall|j: int| 0 <= j < i ==> is_name_char(#[trigger] name[j]),
        decreases n / 2 - i,
    {
        let high = hex_number(dir.get_char(2 * i));
        let low = hex_number(dir.get_char(2 * i + 1));
        match (high, low) {
            (Some(h), Some(l)) => {
                let x: u8 = 16 * h + l;
                if x < 32 || x > 126 {
                    proof {
                        assert(name[i as int] == x as char);
                        assert(!is_name_char(name[i as int]));
                    }
                    return None;
                }
                out.push(x as char);
                proof {
                    assert(name[i as int] == x as char);
                    assert(out@ =~= name.take(i + 1));
                }
            },
            _ => {
                return None;
            },
        }
        i += 1;
    }
    proof {
        assert(name.take(i as int) =~= name);
    }
    Some(out)
}

} // verus!
