//! Worlds kept on disk in the layout of the Java edition: a directory with
//! a session lock and one file for each region of 32 by 32 chunks.

use vstd::prelude::*;
use vstd::string::*;
use crate::endian::{be_value, read_i64_prefix, to_i64};

verus! {

/// A world in the directory `path`. Nothing is kept in memory.
pub struct McJavaWorld<P> {
    path: P,
}

impl<P> McJavaWorld<P> {
    /// The world's directory.
    pub closed spec fn spec_path(&self) -> P {
        self.path
    }

    /// The world in the directory `path`.
    pub fn new(path: P) -> (world: McJavaWorld<P>)
        ensures
            world.spec_path() == path,
    {
        McJavaWorld { path }
    }

    /// The world's directory.
    pub fn path(&self) -> (path: &P)
        ensures
            *path == self.spec_path(),
    {
        &self.path
    }
}

/// The name of the session lock within a world's directory.
pub const SESSION_LOCK_FILE: &'static str = "session.lock";

/// The name of the directory of region files within a world's directory.
pub const REGION_DIRECTORY: &'static str = "region";

/// The time stamp that a session lock holds: a signed 64-bit integer in
/// big-endian order at the start of the file. `None` for a file that is
/// too short to hold one.
pub fn parse_session_lock(content: &[u8]) -> (r: Option<i64>)
    ensures
        match r {
            Some(stamp) => content@.len() >= 8 && stamp == to_i64(be_value(content@.take(8))),
            None => content@.len() < 8,
        },
{
    read_i64_prefix(content)
}

/// The decimal digits of `n`, most significant first; none for 0.
pub open spec fn digits(n: nat) -> Seq<char>
    decreases n,
{
    if n == 0 {
        Seq::empty()
    } else {
        digits(n / 10).push(digit(n % 10))
    }
}

/// The character of the decimal digit `d`.
pub open spec fn digit(d: nat) -> char {
    if d == 0 {
        '0'
    } else if d == 1 {
        '1'
    } else if d == 2 {
        '2'
    } else if d == 3 {
        '3'
    } else if d == 4 {
        '4'
    } else if d == 5 {
        '5'
    } else if d == 6 {
        '6'
    } else if d == 7 {
        '7'
    } else if d == 8 {
        '8'
    } else {
        '9'
    }
}

/// The usual decimal form of `n`: a minus sign if `n` is negative, then
/// the digits of its magnitude, and `0` for zero.
pub open spec fn decimal(n: int) -> Seq<char> {
    if n == 0 {
        seq!['0']
    } else if n < 0 {
        seq!['-'] + digits((-n) as nat)
    } else {
        digits(n as nat)
    }
}

/// The name of the file of the region at `(region_x, region_z)`: the
/// letter `r`, the two coordinates in decimal form and the ending `mca`,
/// with dots between them.
pub open spec fn spec_region_file_name(region_x: int, region_z: int) -> Seq<char> {
    seq!['r', '.'] + decimal(region_x) + seq!['.'] + decimal(region_z) + seq!['.', 'm', 'c', 'a']
}

/// The text of the decimal digit `d`.
fn digit_text(d: u32) -> (text: &'static str)
    requires
        d < 10,
    ensures
        text@ == seq![digit(d as nat)],
{
    proof {
        reveal_strlit("0");
        reveal_strlit("1");
        reveal_strlit("2");
        reveal_strlit("3");
        reveal_strlit("4");
        reveal_strlit("5");
        reveal_strlit("6");
        reveal_strlit("7");
        reveal_strlit("8");
        reveal_strlit("9");
    }
    let text = if d == 0 {
        "0"
    } else if d == 1 {
        "1"
    } else if d == 2 {
        "2"
    } else if d == 3 {
        "3"
    } else if d == 4 {
        "4"
    } else if d == 5 {
        "5"
    } else if d == 6 {
        "6"
    } else if d == 7 {
        "7"
    } else if d == 8 {
        "8"
    } else {
        "9"
    };
    assert(text@ =~= seq![digit(d as nat)]);
    text
}

/// Appends the decimal form of `n` to `text`.
fn push_decimal(text: &mut String, n: i32)
    ensures
        final(text)@ == old(text)@ + decimal(n as int),
{
    proof {
        reveal_strlit("0");
        reveal_strlit("-");
    }
    if n == 0 {
        text.append("0");
        assert(text@ =~= old(text)@ + decimal(0));
        return ;
    }
    let magnitude: u32 = if n < 0 {
        text.append("-");
        (-(n as i64)) as u32
    } else {
        n as u32
    };
    let ghost sign = text@;
    assert(old(text)@ + decimal(n as int) =~= sign + digits(magnitude as nat));
    // The digits come out least significant first: they are collected and
    // then appended in reverse.
    let mut reversed: Vec<u32> = Vec::new();
    let mut rest: u32 = magnitude;
    while rest > 0
        invariant
            forall|j: int| 0 <= j < reversed@.len() ==> reversed@[j] < 10,
            digits(magnitude as nat) =~= digits(rest as nat) + reversed@.reverse().map_values(
                |d: u32| digit(d as nat),
            ),
        decreases rest,
    {
        let ghost before = reversed@;
        reversed.push(rest % 10);
        assert(reversed@.reverse() =~= seq![rest % 10] + before.reverse());
        rest = rest / 10;
    }
    let ghost shown = reversed@.reverse().map_values(|d: u32| digit(d as nat));
    let mut i: usize = reversed.len();
    while i > 0
        invariant
            i <= reversed@.len(),
            forall|j: int| 0 <= j < reversed@.len() ==> reversed@[j] < 10,
            shown == reversed@.reverse().map_values(|d: u32| digit(d as nat)),
            text@ =~= sign + shown.take(reversed@.len() - i),
        decreases i,
    {
        i -= 1;
        text.append(digit_text(reversed[i]));
        assert(shown.take(reversed@.len() - i) =~= shown.take(reversed@.len() - i - 1).push(
            digit(reversed@[i as int] as nat),
        ));
    }
    assert(shown.take(reversed@.len() as int) =~= shown);
}

/// The name of the file of the region at `(region_x, region_z)`, such as
/// `r.-1.2.mca`.
pub fn region_file_name(region_x: i32, region_z: i32) -> (name: String)
    ensures
        name@ == spec_region_file_name(region_x as int, region_z as int),
{
    proof {
        reveal_strlit("r.");
        reveal_strlit(".");
        reveal_strlit(".mca");
    }
    let mut name = String::new();
    name.append("r.");
    push_decimal(&mut name, region_x);
    name.append(".");
    push_decimal(&mut name, region_z);
    name.append(".mca");
    assert(name@ =~= spec_region_file_name(region_x as int, region_z as int));
    name
}

/// The region that holds the chunk at `(chunk_x, chunk_z)`: regions are 32
/// chunks wide, and the division rounds towards negative infinity.
pub fn region_of_chunk(chunk_x: i32, chunk_z: i32) -> (r: (i32, i32))
    ensures
        r.0 == chunk_x as int / 32,
        r.1 == chunk_z as int / 32,
{
    (floor_div_32(chunk_x), floor_div_32(chunk_z))
}

/// `v` divided by 32, rounded towards negative infinity.
fn floor_div_32(v: i32) -> (q: i32)
    ensures
        q == v as int / 32,
{
    let shifted: u64 = (v as i64 + 0x8000_0000) as u64;
    ((shifted / 32) as i64 - 0x400_0000) as i32
}

} // verus!
