//! Settings of the TypeScript binding exporter and the text helpers it uses.
use vstd::prelude::*;
use vstd::string::StringExecFns;
use vstd::utf8::{encode_scalar, encode_utf8};
use crate::source_map::push_char;

verus! {

/// Exporter settings: a user header, the framework's own header line, and
/// whether source maps are written.
pub struct Typescript {
    pub header: String,
    pub framework_header: String,
    pub generate_source_maps: bool,
}

impl Typescript {
    /// Settings with no user header and source maps off.
    pub fn new(framework_header: String) -> (r: Typescript)
        ensures
            r.header@.len() == 0,
            r.framework_header == framework_header,
            !r.generate_source_maps,
    {
        Typescript { header: String::new(), framework_header, generate_source_maps: false }
    }

    /// Replaces the user header.
    pub fn header(self, header: String) -> (r: Typescript)
        ensures
            r.header == header,
            r.framework_header == self.framework_header,
            r.generate_source_maps == self.generate_source_maps,
    {
        Typescript { header, ..self }
    }

    /// Turns source maps on.
    pub fn enable_source_maps(self) -> (r: Typescript)
        ensures
            r.header == self.header,
            r.framework_header == self.framework_header,
            r.generate_source_maps,
    {
        Typescript { generate_source_maps: true, ..self }
    }

    pub open spec fn file_start(&self) -> Seq<char> {
        (if self.header@.len() == 0 {
            Seq::empty()
        } else {
            self.header@.push('\n')
        }) + self.framework_header@ + seq!['\n', '\n']
    }

    /// The start of a bindings file: the user header on its own line when there
    /// is one, the framework header, and a blank line.
    pub fn construct_file(&self) -> (r: String)
        ensures
            r@ == self.file_start(),
    {
        let mut out = self.header.clone();
        if out.as_str().unicode_len() != 0 {
            push_char(&mut out, '\n');
        }
        out.append(self.framework_header.as_str());
        push_char(&mut out, '\n');
        push_char(&mut out, '\n');
        assert(out@ =~= self.file_start());
        out
    }
}

/// The number of line breaks in `s`.
pub open spec fn newlines(s: Seq<char>) -> nat
    decreases s.len(),
{
    if s.len() == 0 {
        0
    } else {
        newlines(s.drop_last()) + if s.last() == '\n' {
            1nat
        } else {
            0nat
        }
    }
}

/// The characters after the last line break of `s`.
pub open spec fn last_line(s: Seq<char>) -> Seq<char>
    decreases s.len(),
{
    if s.len() == 0 {
        Seq::empty()
    } else if s.last() == '\n' {
        Seq::empty()
    } else {
        last_line(s.drop_last()).push(s.last())
    }
}

/// The UTF-8 encoding of `a + b` is that of `a` followed by that of `b`.
proof fn lemma_encode_concat(a: Seq<char>, b: Seq<char>)
    ensures
        encode_utf8(a + b) == encode_utf8(a) + encode_utf8(b),
    decreases a.len(),
{
    if a.len() == 0 {
        assert(a + b =~= b);
        assert(encode_utf8(a) =~= Seq::<u8>::empty());
        assert(encode_utf8(a) + encode_utf8(b) =~= encode_utf8(b));
    } else {
        lemma_encode_concat(a.drop_first(), b);
        assert((a + b).drop_first() =~= a.drop_first() + b);
        assert((a + b)[0] == a[0]);
        assert(encode_utf8(a + b) =~= encode_scalar(a[0] as u32) + encode_utf8(a.drop_first() + b));
    }
}

/// The number of bytes of the UTF-8 encoding of `c`.
fn utf8_width(c: char) -> (r: usize)
    ensures
        r == encode_utf8(seq![c]).len(),
{
    let u = c as u32;
    assert(seq![c].drop_first() =~= Seq::<char>::empty());
    assert(encode_utf8(seq![c]) =~= encode_scalar(u) + encode_utf8(Seq::<char>::empty()));
    if u <= 0x7F {
        1
    } else if u <= 0x7FF {
        2
    } else if u <= 0xFFFF {
        3
    } else {
        4
    }
}

/// The position at the end of `s`: its number of lines, and the length in
/// UTF-8 bytes of its last line.
pub fn get_current_pos(s: &String) -> (r: (usize, usize))
    requires
        s@.len() < usize::MAX,
        encode_utf8(s@).len() <= usize::MAX,
    ensures
        r.0 == newlines(s@) + 1,
        r.1 == encode_utf8(last_line(s@)).len(),
{
    let n = s.as_str().unicode_len();
    let mut lines: usize = 1;
    let mut col: usize = 0;
    let mut i: usize = 0;
    proof {
        assert(s@.subrange(0, 0) + s@.subrange(0, n as int) =~= s@);
        lemma_encode_concat(s@.subrange(0, 0), s@.subrange(0, n as int));
        assert(last_line(s@.subrange(0, 0)) =~= Seq::<char>::empty());
    }
    while i < n
        invariant
            n == s@.len(),
            i <= n,
            n < usize::MAX,
            encode_utf8(s@).len() <= usize::MAX,
            lines == newlines(s@.subrange(0, i as int)) + 1,
            newlines(s@.subrange(0, i as int)) <= i,
            col == encode_utf8(last_line(s@.subrange(0, i as int))).len(),
            col <= encode_utf8(s@.subrange(0, i as int)).len(),
            encode_utf8(s@.subrange(0, i as int)).len() + encode_utf8(
                s@.subrange(i as int, n as int),
            ).len() == encode_utf8(s@).len(),
        decreases n - i,
    {
        let c = s.as_str().get_char(i);
        let ghost pre = s@.subrange(0, i as int);
        let ghost sub = s@.subrange(0, i as int + 1);
        let ghost rest = s@.subrange(i as int + 1, n as int);
        assert(sub.drop_last() =~= pre);
        assert(sub.last() == c);
        proof {
            assert(sub =~= pre + seq![c]);
            lemma_encode_concat(pre, seq![c]);
            assert(sub + rest =~= s@);
            lemma_encode_concat(sub, rest);
            assert(pre + s@.subrange(i as int, n as int) =~= s@);
            lemma_encode_concat(pre, s@.subrange(i as int, n as int));
        }
        if c == '\n' {
            lines = lines + 1;
            col = 0;
            assert(last_line(sub) =~= Seq::<char>::empty());
        } else {
            let w = utf8_width(c);
            proof {
                assert(last_line(sub) == last_line(pre).push(c));
                assert(last_line(pre).push(c) =~= last_line(pre) + seq![c]);
                lemma_encode_concat(last_line(pre), seq![c]);
            }
            col = col + w;
        }
        i = i + 1;
    }
    assert(s@.subrange(0, n as int) =~= s@);
    (lines, col)
}

} // verus!
