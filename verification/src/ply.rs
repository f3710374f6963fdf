//! The header of an ASCII PLY point cloud: which lines end it, give the
//! vertex count, or announce normals.
use vstd::prelude::*;

verus! {

/// `end_header`
pub const END_HEADER: [u8; 10] = [101, 110, 100, 95, 104, 101, 97, 100, 101, 114];

/// `element vertex ` (with the trailing space)
pub const ELEMENT_VERTEX: [u8; 15] = [101, 108, 101, 109, 101, 110, 116, 32, 118, 101, 114, 116, 101, 120, 32];

/// `nx`
pub const NX: [u8; 2] = [110, 120];

/// `normal_x`
pub const NORMAL_X: [u8; 8] = [110, 111, 114, 109, 97, 108, 95, 120];

/// `s` begins with `p`.
pub open spec fn starts_with_spec(s: Seq<u8>, p: Seq<u8>) -> bool {
    p.len() <= s.len() && s.subrange(0, p.len() as int) == p
}

/// `p` occurs somewhere in `s`.
pub open spec fn contains_spec(s: Seq<u8>, p: Seq<u8>) -> bool {
    exists|i: int| 0 <= i && i + p.len() <= s.len() && #[trigger] s.subrange(i, i + p.len()) == p
}

/// Whether `s` begins with `p`.
pub fn starts_with(s: &[u8], p: &[u8]) -> (r: bool)
    ensures
        r == starts_with_spec(s@, p@),
{
    if p.len() > s.len() {
        return false;
    }
    let mut i: usize = 0;
    while i < p.len()
        invariant
            p@.len() <= s@.len(),
            i <= p@.len(),
            s@.subrange(0, i as int) == p@.subrange(0, i as int),
        decreases p@.len() - i,
    {
        if s[i] != p[i] {
            proof {
                assert(s@.subrange(0, p@.len() as int)[i as int] != p@[i as int]);
            }
            return false;
        }
        proof {
            assert(s@.subrange(0, i + 1) =~= s@.subrange(0, i as int).push(s@[i as int]));
            assert(p@.subrange(0, i + 1) =~= p@.subrange(0, i as int).push(p@[i as int]));
        }
        i += 1;
    }
    proof {
        assert(p@.subrange(0, i as int) =~= p@);
    }
    true
}

/// Whether `p` occurs somewhere in `s`.
pub fn contains(s: &[u8], p: &[u8]) -> (r: bool)
    ensures
        r == contains_spec(s@, p@),
{
    if p.len() > s.len() {
        return false;
    }
    let last = s.len() - p.len();
    let mut i: usize = 0;
    loop
        invariant
            last + p@.len() == s@.len(),
            i <= last,
            forall|j: int| 0 <= j < i ==> #[trigger] s@.subrange(j, j + p@.len()) != p@,
        decreases last - i,
    {
        let rest = &s[i..s.len()];
        let found = starts_with(rest, p);
        proof {
            assert(rest@.subrange(0, p@.len() as int) =~= s@.subrange(i as int, i + p@.len()));
        }
        if found {
            return true;
        }
        if i == last {
            return false;
        }
        i += 1;
    }
}

/// The byte is an ASCII decimal digit.
pub open spec fn is_digit(b: u8) -> bool {
    48 <= b <= 57
}

/// The number that a string of decimal digits writes.
pub open spec fn digits_value(s: Seq<u8>) -> nat
    decreases s.len(),
{
    if s.len() == 0 { 0 } else { digits_value(s.drop_last()) * 10 + (s.last() - 48) as nat }
}

/// The digits after an optional leading `+`.
pub open spec fn unsigned_digits(s: Seq<u8>) -> Seq<u8> {
    if s.len() > 0 && s[0] == 43 { s.subrange(1, s.len() as int) } else { s }
}

/// `s` is the text of an unsigned number as Rust's `usize::from_str`
/// accepts it: an optional `+`, then one or more decimal digits, whose value
/// fits in a `usize`.
pub open spec fn is_usize_text(s: Seq<u8>) -> bool {
    let d = unsigned_digits(s);
    &&& d.len() > 0
    &&& forall|i: int| 0 <= i < d.len() ==> is_digit(#[trigger] d[i])
    &&& digits_value(d) <= usize::MAX
}

/// Parse an unsigned decimal number: an optional `+`, then digits, with no
/// other bytes, and no overflow.
pub fn parse_usize(s: &[u8]) -> (r: Option<usize>)
    ensures
        r is Some <==> is_usize_text(s@),
        r matches Some(n) ==> n == digits_value(unsigned_digits(s@)),
{
    let start: usize = if s.len() > 0 && s[0] == 43 { 1 } else { 0 };
    let ghost d = unsigned_digits(s@);
    proof {
        if start == 1 {
            assert(d =~= s@.subrange(1, s@.len() as int));
        } else {
            assert(d =~= s@);
        }
    }
    if start == s.len() {
        return None;
    }
    let mut value: usize = 0;
    let mut i: usize = start;
    while i < s.len()
        invariant
            start <= i <= s@.len(),
            start < s@.len(),
            d == s@.subrange(start as int, s@.len() as int),
            d == unsigned_digits(s@),
            forall|k: int| 0 <= k < i - start ==> is_digit(#[trigger] d[k]),
            value == digits_value(d.subrange(0, i - start)),
        decreases s@.len() - i,
    {
        let b = s[i];
        if b < 48 || b > 57 {
            proof {
                assert(d[i - start] == b);
                assert(!is_digit(d[i - start]));
            }
            return None;
        }
        proof {
            assert(d.subrange(0, i - start + 1).drop_last() =~= d.subrange(0, i - start));
            assert(d[i - start] == b);
        }
        let digit = (b - 48) as usize;
        match value.checked_mul(10) {
            None => {
                proof {
                    if forall|k: int| 0 <= k < d.len() ==> is_digit(#[trigger] d[k]) {
                        lemma_digits_value_prefix(d, i - start + 1);
                    }
                }
                return None;
            },
            Some(v) => match v.checked_add(digit) {
                None => {
                    proof {
                        if forall|k: int| 0 <= k < d.len() ==> is_digit(#[trigger] d[k]) {
                            lemma_digits_value_prefix(d, i - start + 1);
                        }
                    }
                    return None;
                },
                Some(w) => {
                    value = w;
                },
            },
        }
        i += 1;
    }
    proof {
        assert(d.subrange(0, i - start) =~= d);
    }
    Some(value)
}

/// A number's digits never write less than any of their prefixes.
proof fn lemma_digits_value_prefix(s: Seq<u8>, n: int)
    requires
        0 <= n <= s.len(),
        forall|i: int| 0 <= i < s.len() ==> is_digit(#[trigger] s[i]),
    ensures
        digits_value(s.subrange(0, n)) <= digits_value(s),
    decreases s.len() - n,
{
    if n < s.len() {
        let t = s.drop_last();
        assert forall|i: int| 0 <= i < t.len() implies is_digit(#[trigger] t[i]) by {
            assert(t[i] == s[i]);
        }
        lemma_digits_value_prefix(t, n);
        assert(t.subrange(0, n) =~= s.subrange(0, n));
    } else {
        assert(s.subrange(0, n) =~= s);
    }
}

/// Why a PLY header is refused.
#[derive(Debug, Clone, Copy, PartialEq, Eq, Structural)]
pub enum PlyHeaderError {
    /// The text after `element vertex ` is not a vertex count.
    InvalidVertexCount,
    /// No property line names a normal.
    NoNormals,
}

/// What the header lines read so far say.
#[derive(Debug, Clone, Copy)]
pub struct PlyHeader {
    /// The count of the last `element vertex` line (0 before one).
    pub num_vertices: usize,
    /// Some line named `nx` or `normal_x`.
    pub has_normals: bool,
    /// `end_header` was read.
    pub done: bool,
}

impl PlyHeader {
    /// Nothing read yet.
    pub fn new() -> (r: Self)
        ensures
            r.num_vertices == 0,
            !r.has_normals,
            !r.done,
    {
        PlyHeader { num_vertices: 0, has_normals: false, done: false }
    }

    /// Take one header line: `Ok(true)` when it ends the header; a line
    /// starting `element vertex ` sets the vertex count (an error if the
    /// rest is no count); any other line that mentions `nx` or `normal_x`
    /// announces normals.
    pub fn accept_line(&mut self, line: &[u8]) -> (r: Result<bool, PlyHeaderError>)
        ensures
            starts_with_spec(line@, END_HEADER@) ==> r == Ok::<bool, PlyHeaderError>(true) && *final(self) == (PlyHeader { done: true, ..*old(self) }),
            !starts_with_spec(line@, END_HEADER@) && starts_with_spec(line@, ELEMENT_VERTEX@) ==> {
                let rest = line@.subrange(ELEMENT_VERTEX@.len() as int, line@.len() as int);
                if is_usize_text(rest) {
                    &&& r == Ok::<bool, PlyHeaderError>(false)
                    &&& *final(self) == (PlyHeader { num_vertices: digits_value(unsigned_digits(rest)) as usize, ..*old(self) })
                } else {
                    &&& r == Err::<bool, PlyHeaderError>(PlyHeaderError::InvalidVertexCount)
                    &&& *final(self) == *old(self)
                }
            },
            !starts_with_spec(line@, END_HEADER@) && !starts_with_spec(line@, ELEMENT_VERTEX@) ==> {
                &&& r == Ok::<bool, PlyHeaderError>(false)
                &&& *final(self) == (PlyHeader {
                    has_normals: old(self).has_normals || contains_spec(line@, NX@) || contains_spec(line@, NORMAL_X@),
                    ..*old(self)
                })
            },
    {
        if starts_with(line, &END_HEADER) {
            self.done = true;
            Ok(true)
        } else if starts_with(line, &ELEMENT_VERTEX) {
            let rest = &line[15..line.len()];
            match parse_usize(rest) {
                Some(n) => {
                    self.num_vertices = n;
                    Ok(false)
                },
                None => Err(PlyHeaderError::InvalidVertexCount),
            }
        } else {
            if contains(line, &NX) || contains(line, &NORMAL_X) {
                self.has_normals = true;
            }
            Ok(false)
        }
    }

    /// The vertex count, once the header is read; an error if it announced
    /// no normals.
    pub fn vertex_count(&self) -> (r: Result<usize, PlyHeaderError>)
        ensures
            r == if self.has_normals {
                Ok::<usize, PlyHeaderError>(self.num_vertices)
            } else {
                Err::<usize, PlyHeaderError>(PlyHeaderError::NoNormals)
            },
    {
        if !self.has_normals {
            Err(PlyHeaderError::NoNormals)
        } else {
            Ok(self.num_vertices)
        }
    }
}

} // verus!
