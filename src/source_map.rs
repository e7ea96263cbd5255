//! Base64 VLQ encoding and the collection of source-map mappings.
use vstd::prelude::*;

verus! {

/// The base64 alphabet used by source maps, as bytes.
pub open spec fn b64_byte(d: nat) -> u8 {
    if d < 26 {
        (65 + d) as u8
    } else if d < 52 {
        (97 + (d - 26)) as u8
    } else if d < 62 {
        (48 + (d - 52)) as u8
    } else if d == 62 {
        43u8
    } else {
        47u8
    }
}

/// The base64 character of a six-bit digit.
pub open spec fn b64_char(d: nat) -> char {
    (b64_byte(d) as char)
}

/// Base64 VLQ digits of an already sign-folded value: five bits per digit, least
/// significant first, with bit 5 set on every digit but the last.
pub open spec fn vlq_digits(n: nat) -> Seq<char>
    decreases n,
{
    if n / 32 > 0 {
        seq![b64_char(n % 32 + 32)] + vlq_digits(n / 32)
    } else {
        seq![b64_char(n % 32)]
    }
}

/// The sign-folded form of an integer: the sign moves to the lowest bit.
pub open spec fn vlq_fold(num: int) -> nat {
    if num < 0 {
        (-num * 2 + 1) as nat
    } else {
        (num * 2) as nat
    }
}

/// The VLQ encoding of one integer.
pub open spec fn vlq(num: int) -> Seq<char> {
    vlq_digits(vlq_fold(num))
}

/// The VLQ encoding of a sequence of integers, one after the other.
pub open spec fn vlq_segment(nums: Seq<i64>) -> Seq<char>
    decreases nums.len(),
{
    if nums.len() == 0 {
        Seq::empty()
    } else {
        vlq_segment(nums.drop_last()) + vlq(nums.last() as int)
    }
}

/// Relies on `String::push`: appends one character.
#[verifier::external_body]
pub(crate) fn push_char(s: &mut String, c: char)
    ensures
        final(s)@ == old(s)@.push(c),
{
    s.push(c);
}

fn b64_digit(d: u8) -> (c: char)
    requires
        d < 64,
    ensures
        c == b64_char(d as nat),
{
    let b: u8 = if d < 26 {
        65 + d
    } else if d < 52 {
        97 + (d - 26)
    } else if d < 62 {
        48 + (d - 52)
    } else if d == 62 {
        43
    } else {
        47
    };
    b as char
}

/// Appends the VLQ encoding of `num` to `out`.
pub fn encode_vlq(out: &mut String, num: i64)
    ensures
        final(out)@ == old(out)@ + vlq(num as int),
{
    let mut n: u128 = if num < 0 {
        (0i128 - num as i128) as u128 * 2 + 1
    } else {
        num as u128 * 2
    };
    assert(n == vlq_fold(num as int));
    let ghost start = out@;
    loop
        invariant_except_break
            start + vlq(num as int) == out@ + vlq_digits(n as nat),
        ensures
            out@ == start + vlq(num as int),
        decreases n,
    {
        let mut digit: u8 = (n % 32) as u8;
        let ghost before = n;
        n = n / 32;
        if n > 0 {
            digit = digit + 32;
        }
        let c = b64_digit(digit);
        proof {
            let d = vlq_digits(before as nat);
            assert(d == seq![c] + vlq_digits(n as nat) || n == 0);
        }
        push_char(out, c);
        if n == 0 {
            assert(out@ == start + vlq(num as int));
            break;
        }
        assert(out@ + vlq_digits(n as nat) =~= start + vlq(num as int));
    }
}

/// Encodes a sequence of integers as one VLQ segment.
pub fn generate_vlq_segment(nums: &[i64]) -> (r: String)
    ensures
        r@ == vlq_segment(nums@),
{
    let mut rv = String::new();
    let mut i: usize = 0;
    while i < nums.len()
        invariant
            i <= nums@.len(),
            rv@ == vlq_segment(nums@.subrange(0, i as int)),
        decreases nums@.len() - i,
    {
        encode_vlq(&mut rv, nums[i]);
        assert(nums@.subrange(0, i as int + 1).drop_last() =~= nums@.subrange(0, i as int));
        i = i + 1;
    }
    assert(nums@.subrange(0, nums@.len() as int) =~= nums@);
    rv
}

/// One mapping of a source map: a generated column, the indices of its source
/// file and name, and the position in the source.
#[derive(Clone, Copy, Debug, PartialEq, Eq, Structural)]
pub struct Segment {
    pub generated_col: usize,
    pub source: usize,
    pub name: usize,
    pub source_line: usize,
    pub source_col: usize,
}

/// The mappings collected for a source map, each with its generated line, in
/// insertion order, and the source files and names they refer to by index.
pub struct SourceMap {
    pub mappings: Vec<(usize, Segment)>,
    pub sources: Vec<String>,
    pub names: Vec<String>,
}

pub open spec fn strings_view(v: Seq<String>) -> Seq<Seq<char>> {
    v.map_values(|s: String| s@)
}

/// `s` with `x` added at the end unless it is already there.
pub open spec fn interned(s: Seq<Seq<char>>, x: Seq<char>) -> Seq<Seq<char>> {
    if s.contains(x) {
        s
    } else {
        s.push(x)
    }
}

/// `i` is the first position of `x` in `s`.
pub open spec fn first_position(s: Seq<Seq<char>>, x: Seq<char>, i: int) -> bool {
    0 <= i < s.len() && s[i] == x && forall|j: int| 0 <= j < i ==> s[j] != x
}

/// Adds `x` unless present, and returns its first position.
fn intern(v: &mut Vec<String>, x: String) -> (r: usize)
    ensures
        strings_view(final(v)@) == interned(strings_view(old(v)@), x@),
        first_position(strings_view(final(v)@), x@, r as int),
{
    let ghost sv = strings_view(v@);
    let mut i: usize = 0;
    while i < v.len()
        invariant
            sv == strings_view(v@),
            i <= v@.len(),
            forall|j: int| 0 <= j < i ==> sv[j] != x@,
        decreases v@.len() - i,
    {
        if v[i] == x {
            assert(sv.contains(x@)) by {
                assert(sv[i as int] == x@);
            }
            return i;
        }
        i = i + 1;
    }
    assert(!sv.contains(x@));
    v.push(x);
    assert(strings_view(v@) =~= sv.push(x@));
    i
}

impl SourceMap {
    /// A source map with no mappings.
    pub fn new() -> (r: SourceMap)
        ensures
            r.mappings@.len() == 0,
            r.sources@.len() == 0,
            r.names@.len() == 0,
    {
        SourceMap { mappings: Vec::new(), sources: Vec::new(), names: Vec::new() }
    }

    /// Records that the generated position `generated` (line, column) comes from
    /// `source_pos` (line, column) in `source_file`, under `name`. The file and the
    /// name are added to their lists unless already there, and the mapping refers
    /// to their first positions.
    pub fn insert(
        &mut self,
        name: String,
        generated: (usize, usize),
        source_pos: (usize, usize),
        source_file: String,
    )
        ensures
            strings_view(final(self).sources@) == interned(
                strings_view(old(self).sources@),
                source_file@,
            ),
            strings_view(final(self).names@) == interned(strings_view(old(self).names@), name@),
            final(self).mappings@.len() == old(self).mappings@.len() + 1,
            final(self).mappings@.drop_last() == old(self).mappings@,
            ({
                let (line, seg) = final(self).mappings@.last();
                &&& line == generated.0
                &&& seg.generated_col == generated.1
                &&& seg.source_line == source_pos.0
                &&& seg.source_col == source_pos.1
                &&& first_position(
                    strings_view(final(self).sources@),
                    source_file@,
                    seg.source as int,
                )
                &&& first_position(strings_view(final(self).names@), name@, seg.name as int)
            }),
    {
        let source = intern(&mut self.sources, source_file);
        let name_id = intern(&mut self.names, name);
        let ghost before = self.mappings@;
        self.mappings.push(
            (
                generated.0,
                Segment {
                    generated_col: generated.1,
                    source,
                    name: name_id,
                    source_line: source_pos.0,
                    source_col: source_pos.1,
                },
            ),
        );
        assert(self.mappings@.drop_last() =~= before);
    }
}

} // verus!
