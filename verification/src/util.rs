use vstd::prelude::*;

verus! {

/// Decimal digits of a nonnegative integer, as ASCII bytes.
pub open spec fn dec_text(n: int) -> Seq<u8>
    decreases n,
{
    if n <= 0 {
        seq![48u8]
    } else if n < 10 {
        seq![(48 + n) as u8]
    } else {
        dec_text(n / 10) + seq![(48 + n % 10) as u8]
    }
}

/// Decimal text of an integer, with a leading '-' when negative.
pub open spec fn int_text(n: int) -> Seq<u8> {
    if n < 0 {
        seq![45u8] + dec_text(-n)
    } else {
        dec_text(n)
    }
}

/// Appends the decimal text of `n`.
pub fn push_dec_u64(out: &mut Vec<u8>, n: u64)
    ensures
        final(out)@ == old(out)@ + dec_text(n as int),
    decreases n,
{
    if n >= 10 {
        push_dec_u64(out, n / 10);
        out.push((48 + (n % 10) as u8) as u8);
        proof {
            assert(out@ =~= old(out)@ + dec_text(n as int));
        }
    } else {
        out.push(48 + n as u8);
        proof {
            assert(out@ =~= old(out)@ + dec_text(n as int));
        }
    }
}

/// Appends the decimal text of `n`, '-'-prefixed when negative.
pub fn push_dec_i64(out: &mut Vec<u8>, n: i64)
    ensures
        final(out)@ == old(out)@ + int_text(n as int),
{
    if n < 0 {
        out.push(45);
        let magnitude: u64 = ((-(n + 1)) as u64) + 1;
        push_dec_u64(out, magnitude);
        proof {
            assert(out@ =~= old(out)@ + int_text(n as int));
        }
    } else {
        push_dec_u64(out, n as u64);
    }
}

/// Whether two byte vectors hold the same bytes.
pub fn bytes_eq(a: &Vec<u8>, b: &Vec<u8>) -> (r: bool)
    ensures
        r == (a@ == b@),
{
    if a.len() != b.len() {
        proof {
            assert(a@ != b@);
        }
        return false;
    }
    proof {
        assert(a@.subrange(0, b@.len() as int) =~= a@);
    }
    range_eq(a, 0, b)
}

/// Relies on `String::from_utf8`: ASCII bytes are valid UTF-8 and decode to
/// the characters with the same code points.
#[verifier::external_body]
pub(crate) fn ascii_string(bytes: Vec<u8>) -> (r: String)
    requires
        forall|i: int| 0 <= i < bytes@.len() ==> bytes@[i] < 0x80,
    ensures
        r@ == bytes@.map_values(|b: u8| b as char),
{
    String::from_utf8(bytes).unwrap()
}

/// Copies `buf[start..end]` into a fresh vector.
pub fn copy_range(buf: &Vec<u8>, start: usize, end: usize) -> (r: Vec<u8>)
    requires
        start <= end,
        end <= buf.len(),
    ensures
        r@ == buf@.subrange(start as int, end as int),
{
    let mut r: Vec<u8> = Vec::new();
    let mut i: usize = start;
    while i < end
        invariant
            start <= i <= end,
            end <= buf.len(),
            r@ == buf@.subrange(start as int, i as int),
        decreases end - i,
    {
        r.push(buf[i]);
        i = i + 1;
        proof {
            assert(r@ =~= buf@.subrange(start as int, i as int));
        }
    }
    r
}

/// Compares `buf[start..start + pat.len()]` with `pat`.
pub fn range_eq(buf: &Vec<u8>, start: usize, pat: &Vec<u8>) -> (r: bool)
    requires
        start + pat.len() <= buf.len(),
    ensures
        r == (buf@.subrange(start as int, start + pat@.len()) == pat@),
{
    let n = pat.len();
    let mut i: usize = 0;
    while i < n
        invariant
            0 <= i <= n,
            n == pat@.len(),
            start + n <= buf.len(),
            forall|j: int| 0 <= j < i ==> buf@[start + j] == pat@[j],
        decreases n - i,
    {
        if buf[start + i] != pat[i] {
            proof {
                assert(buf@.subrange(start as int, start + pat@.len())[i as int] != pat@[i as int]);
            }
            return false;
        }
        i = i + 1;
    }
    proof {
        assert(buf@.subrange(start as int, start + pat@.len()) =~= pat@);
    }
    true
}

/// A read cursor over an owned byte buffer.
pub struct ByteCursor {
    data: Vec<u8>,
    pos: usize,
}

impl ByteCursor {
    #[verifier::type_invariant]
    spec fn wf(&self) -> bool {
        self.pos <= self.data@.len()
    }

    /// Bytes not yet consumed.
    pub closed spec fn remaining_bytes(&self) -> Seq<u8> {
        self.data@.subrange(self.pos as int, self.data@.len() as int)
    }

    pub fn new(data: Vec<u8>) -> (r: ByteCursor)
        ensures
            r.remaining_bytes() == data@,
    {
        let r = ByteCursor { data, pos: 0 };
        proof {
            assert(r.remaining_bytes() =~= r.data@);
        }
        r
    }
}

/// Reading a fixed number of leading bytes out of a buffer, when that many
/// are available.
pub trait ReadExactExt {
    /// How many bytes are available to read.
    spec fn spec_remaining(&self) -> Seq<u8>;

    /// Returns the next `n` bytes and consumes them, or `None`, with no
    /// change, when fewer than `n` are available.
    fn read_exact_arr(&mut self, n: usize) -> (r: Option<Vec<u8>>)
        ensures
            old(self).spec_remaining().len() < n ==> (r is None && final(self).spec_remaining()
                == old(self).spec_remaining()),
            old(self).spec_remaining().len() >= n ==> (r matches Some(v) && v@ == old(
                self,
            ).spec_remaining().take(n as int) && final(self).spec_remaining() == old(
                self,
            ).spec_remaining().skip(n as int)),
    ;
}

impl ReadExactExt for ByteCursor {
    open spec fn spec_remaining(&self) -> Seq<u8> {
        self.remaining_bytes()
    }

    fn read_exact_arr(&mut self, n: usize) -> (r: Option<Vec<u8>>) {
        proof {
            use_type_invariant(&*self);
        }
        if self.data.len() - self.pos < n {
            return None;
        }
        let out = copy_range(&self.data, self.pos, self.pos + n);
        self.pos = self.pos + n;
        proof {
            assert(out@ =~= old(self).spec_remaining().take(n as int));
            assert(self.spec_remaining() =~= old(self).spec_remaining().skip(n as int));
        }
        Some(out)
    }
}

} // verus!
