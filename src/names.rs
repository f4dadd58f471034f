//! Which files of a directory are containers, and what happens to each.
use vstd::prelude::*;
use crate::codec::HEADER_SIZE;

verus! {

/// Byte value of `.`.
pub const DOT: u8 = 46;

/// The positions of the dots in `s`, in order.
pub open spec fn dots(s: Seq<u8>) -> Seq<int>
    decreases s.len(),
{
    if s.len() == 0 {
        Seq::empty()
    } else if s.last() == DOT {
        dots(s.drop_last()).push(s.len() - 1)
    } else {
        dots(s.drop_last())
    }
}

/// Whether every byte of `s` is an ASCII digit.
pub open spec fn all_digits(s: Seq<u8>) -> bool {
    forall|i: int| 0 <= i < s.len() ==> 48 <= #[trigger] s[i] <= 57
}

/// The value of a string of decimal digits.
pub open spec fn digits_value(s: Seq<u8>) -> nat
    decreases s.len(),
{
    if s.len() == 0 {
        0
    } else {
        digits_value(s.drop_last()) * 10 + (s.last() - 48) as nat
    }
}

/// A signed 32-bit decimal: an optional `+` or `-`, then at least one digit,
/// with a value in range.
pub open spec fn parsed_i32(s: Seq<u8>) -> Option<i32> {
    let negative = s.len() > 0 && s[0] == 45;
    let digits = if s.len() > 0 && (s[0] == 45 || s[0] == 43) {
        s.drop_first()
    } else {
        s
    };
    let v: int = if negative {
        -digits_value(digits)
    } else {
        digits_value(digits) as int
    };
    if digits.len() > 0 && all_digits(digits) && i32::MIN <= v <= i32::MAX {
        Some(v as i32)
    } else {
        None
    }
}

/// The grid coordinates named by a container's file name
/// `<prefix>.<x>.<z>.mca`: exactly three dots, the extension `mca`, and two
/// signed 32-bit decimals between them.
pub open spec fn container_name(name: Seq<u8>) -> Option<(i32, i32)> {
    let d = dots(name);
    if d.len() != 3 || name.subrange(d[2] + 1, name.len() as int) != seq![109u8, 99u8, 97u8] {
        None
    } else {
        match (parsed_i32(name.subrange(d[0] + 1, d[1])), parsed_i32(name.subrange(d[1] + 1, d[2]))) {
            (Some(x), Some(z)) => Some((x, z)),
            _ => None,
        }
    }
}

proof fn lemma_dots_bounds(s: Seq<u8>)
    ensures
        forall|i: int| 0 <= i < dots(s).len() ==> 0 <= #[trigger] dots(s)[i] < s.len() && s[dots(s)[i]] == DOT,
        forall|i: int, j: int| 0 <= i < j < dots(s).len() ==> dots(s)[i] < dots(s)[j],
    decreases s.len(),
{
    if s.len() > 0 {
        let t = s.drop_last();
        lemma_dots_bounds(t);
        let d = dots(s);
        let dt = dots(t);
        assert(forall|k: int| 0 <= k < t.len() ==> s[k] == #[trigger] t[k]);
        if s.last() == DOT {
            assert(d == dt.push(s.len() - 1));
            assert forall|i: int| 0 <= i < d.len() implies 0 <= #[trigger] d[i] < s.len() && s[d[i]] == DOT by {
                if i < dt.len() {
                    assert(d[i] == dt[i]);
                }
            }
            assert forall|i: int, j: int| 0 <= i < j < d.len() implies d[i] < d[j] by {
                assert(d[i] == dt[i]);
                if j < dt.len() {
                    assert(d[j] == dt[j]);
                }
            }
        } else {
            assert(d == dt);
        }
    }
}

proof fn lemma_digits_grow(s: Seq<u8>, j: int)
    requires
        0 <= j <= s.len(),
    ensures
        digits_value(s.subrange(0, j)) <= digits_value(s),
    decreases s.len() - j,
{
    if j < s.len() {
        assert(s.subrange(0, j + 1).drop_last() =~= s.subrange(0, j));
        assert(digits_value(s.subrange(0, j)) <= digits_value(s.subrange(0, j + 1)));
        lemma_digits_grow(s, j + 1);
    } else {
        assert(s.subrange(0, j) =~= s);
    }
}

/// Parses the signed 32-bit decimal `s[from..to]`.
pub fn parse_i32(s: &Vec<u8>, from: usize, to: usize) -> (r: Option<i32>)
    requires
        from <= to <= s@.len(),
    ensures
        r == parsed_i32(s@.subrange(from as int, to as int)),
{
    let ghost t = s@.subrange(from as int, to as int);
    let negative = from < to && s[from] == 45;
    assert(negative == (t.len() > 0 && t[0] == 45));
    let mut i: usize = from;
    if from < to && (s[from] == 45 || s[from] == 43) {
        i = from + 1;
    }
    let ghost digits = s@.subrange(i as int, to as int);
    assert(digits =~= if t.len() > 0 && (t[0] == 45 || t[0] == 43) { t.drop_first() } else { t });
    if i == to {
        return None;
    }
    let first = i;
    let mut acc: i64 = 0;
    while i < to
        invariant
            first <= i <= to <= s@.len(),
            from <= first < to,
            digits == s@.subrange(first as int, to as int),
            t == s@.subrange(from as int, to as int),
            digits == (if t.len() > 0 && (t[0] == 45 || t[0] == 43) { t.drop_first() } else { t }),
            negative == (t.len() > 0 && t[0] == 45),
            all_digits(s@.subrange(first as int, i as int)),
            acc as nat == digits_value(s@.subrange(first as int, i as int)),
            0 <= acc <= 0x8000_0000,
        decreases to - i,
    {
        let c = s[i];
        if c < 48 || c > 57 {
            assert(digits[i - first] == c);
            assert(!all_digits(digits));
            assert(parsed_i32(t) is None);
            return None;
        }
        acc = acc * 10 + (c - 48) as i64;
        i = i + 1;
        assert(s@.subrange(first as int, i as int).drop_last() =~= s@.subrange(first as int, i as int - 1));
        if acc > 0x8000_0000 {
            proof {
                lemma_digits_grow(digits, i - first);
                assert(digits.subrange(0, i - first) =~= s@.subrange(first as int, i as int));
            }
            return None;
        }
    }
    assert(s@.subrange(first as int, i as int) =~= digits);
    if negative {
        assert(0 - acc >= i32::MIN);
        Some((0 - acc) as i32)
    } else if acc > 0x7fff_ffff {
        None
    } else {
        Some(acc as i32)
    }
}

/// The grid coordinates named by a container's file name, or `None` for a
/// file that is not a container.
pub fn container_coords(name: &Vec<u8>) -> (r: Option<(i32, i32)>)
    ensures
        r == container_name(name@),
{
    let mut d: Vec<usize> = Vec::new();
    let mut j: usize = 0;
    while j < name.len()
        invariant
            j <= name@.len(),
            d@.map_values(|p: usize| p as int) == dots(name@.subrange(0, j as int)),
        decreases name@.len() - j,
    {
        assert(name@.subrange(0, j as int + 1).drop_last() =~= name@.subrange(0, j as int));
        if name[j] == DOT {
            d.push(j);
        }
        j = j + 1;
        assert(d@.map_values(|p: usize| p as int) =~= dots(name@.subrange(0, j as int)));
    }
    assert(name@.subrange(0, j as int) =~= name@);
    proof {
        lemma_dots_bounds(name@);
    }
    if d.len() != 3 {
        return None;
    }
    let n = name.len();
    assert(d[0] as int == dots(name@)[0]);
    assert(d[1] as int == dots(name@)[1]);
    assert(d[2] as int == dots(name@)[2]);
    let ext = d[2] + 1;
    if n - ext != 3 || name[ext] != 109 || name[ext + 1] != 99 || name[ext + 2] != 97 {
        proof {
            let tail = name@.subrange(ext as int, n as int);
            if tail.len() == 3 {
                assert(tail[0] == name@[ext as int]);
                assert(tail[1] == name@[ext + 1]);
                assert(tail[2] == name@[ext + 2]);
            }
            assert(tail != seq![109u8, 99u8, 97u8]);
        }
        return None;
    }
    assert(name@.subrange(ext as int, n as int) =~= seq![109u8, 99u8, 97u8]);
    match (parse_i32(name, d[0] + 1, d[1]), parse_i32(name, d[1] + 1, d[2])) {
        (Some(x), Some(z)) => Some((x, z)),
        _ => None,
    }
}

/// What to do with one file of the container directory.
#[derive(Clone, Copy, Debug, PartialEq, Eq, Structural)]
pub enum FilePlan {
    /// Not a container: left alone.
    Ignore,
    /// An empty container while compacting in place: removed.
    RemoveEmpty,
    /// An empty container while compacting into another directory: nothing
    /// is written.
    SkipEmpty,
    /// Shorter than the two header tables: left alone.
    HeaderMissing,
    /// A container to compact.
    Compact { x: i32, z: i32 },
}

/// Decides what happens to a file named `name` of `len` bytes.
pub fn plan_file(name: &Vec<u8>, len: u64, in_place: bool) -> (r: FilePlan)
    ensures
        r == match container_name(name@) {
            None => FilePlan::Ignore,
            Some((x, z)) => if len == 0 {
                if in_place { FilePlan::RemoveEmpty } else { FilePlan::SkipEmpty }
            } else if len < HEADER_SIZE {
                FilePlan::HeaderMissing
            } else {
                FilePlan::Compact { x, z }
            },
        },
{
    match container_coords(name) {
        None => FilePlan::Ignore,
        Some((x, z)) => if len == 0 {
            if in_place { FilePlan::RemoveEmpty } else { FilePlan::SkipEmpty }
        } else if len < HEADER_SIZE as u64 {
            FilePlan::HeaderMissing
        } else {
            FilePlan::Compact { x, z }
        },
    }
}

} // verus!
