//! A hex-dump renderer for received packets: sixteen octets per row, each
//! row prefixed by its offset.

use vstd::prelude::*;
use vstd::utf8::{
    encode_utf8, is_leading_byte_width_1, partial_valid_utf8, partial_valid_utf8_extend_ascii_block,
    valid_utf8,
};

use crate::text::bytes_to_string;

verus! {

/// The ASCII code of the hex digit for `v` (0 to 15): decimal digits, then
/// lower-case letters.
pub open spec fn hex_digit(v: int) -> u8 {
    if v < 10 {
        (0x30 + v) as u8
    } else {
        (0x57 + v) as u8
    }
}

/// The hex digits of `n`, most significant first, without padding; empty for
/// zero.
pub open spec fn hex_rep(n: int) -> Seq<u8>
    decreases n,
{
    if n <= 0 {
        Seq::empty()
    } else {
        hex_rep(n / 16).push(hex_digit(n % 16))
    }
}

/// `digits` left-padded with ASCII zeros to width `w`.
pub open spec fn zero_pad(digits: Seq<u8>, w: int) -> Seq<u8> {
    if digits.len() >= w {
        digits
    } else {
        Seq::new((w - digits.len()) as nat, |_k: int| 0x30u8) + digits
    }
}

/// The offset column: the hex digits of `i`, at least four wide.
pub open spec fn offset_hex(i: int) -> Seq<u8> {
    zero_pad(hex_rep(i), 4)
}

/// The two hex digits of one octet.
pub open spec fn byte_hex(b: u8) -> Seq<u8> {
    seq![hex_digit(b as int / 16), hex_digit(b as int % 16)]
}

/// What the dump shows for `data[i]`: at the head of each sixteen-octet row
/// a line break (absent on the first row), the offset column and two spaces;
/// within a row a single space; then the octet's two digits.
pub open spec fn dump_entry(data: Seq<u8>, i: int) -> Seq<u8> {
    if i % 16 == 0 {
        (if i > 0 {
            seq![0x0au8]
        } else {
            Seq::empty()
        }) + offset_hex(i) + seq![0x20u8, 0x20u8] + byte_hex(data[i])
    } else {
        seq![0x20u8] + byte_hex(data[i])
    }
}

/// The dump of the first `n` octets of `data`, as ASCII octets.
pub open spec fn dump_bytes(data: Seq<u8>, n: int) -> Seq<u8>
    decreases n,
{
    if n <= 0 {
        Seq::empty()
    } else {
        dump_bytes(data, n - 1) + dump_entry(data, n - 1)
    }
}

/// A view of `length` octets of a buffer, to be rendered as a hex dump.
pub struct Hex<'a>(&'a [u8], usize);

impl<'a> Hex<'a> {
    /// The octets under the view.
    pub closed spec fn data(self) -> Seq<u8> {
        self.0@
    }

    /// How many of them the dump shows.
    pub closed spec fn length(self) -> usize {
        self.1
    }

    /// View `length` octets of `data`.
    pub fn new(data: &'a [u8], length: usize) -> (r: Hex<'a>)
        ensures
            r.data() == data@,
            r.length() == length,
    {
        Hex(data, length)
    }

    /// Render the dump: rows of sixteen octets, each prefixed by its offset.
    #[verifier::loop_isolation(false)]
    pub fn to_hex_string(&self) -> (r: String)
        requires
            self.length() <= self.data().len(),
        ensures
            encode_utf8(r@) == dump_bytes(self.data(), self.length() as int),
    {
        let mut out: Vec<u8> = Vec::new();
        let mut i: usize = 0;
        while i < self.1
            invariant
                i <= self.1,
                out@ == dump_bytes(self.0@, i as int),
                forall|k: int| 0 <= k < out@.len() ==> out@[k] < 0x80,
            decreases self.1 - i,
        {
            let ghost out0 = out@;
            if i % 16 == 0 {
                if i > 0 {
                    out.push(0x0a);
                }
                push_offset_hex(&mut out, i);
                out.push(0x20);
                out.push(0x20);
            } else {
                out.push(0x20);
            }
            let b = self.0[i];
            out.push(hex_digit_of(b / 16));
            out.push(hex_digit_of(b % 16));
            proof {
                assert(out@ =~= out0 + dump_entry(self.0@, i as int));
                lemma_offset_hex_ascii(i as int);
                assert forall|k: int| 0 <= k < out@.len() implies out@[k] < 0x80 by {
                    if k >= out0.len() {
                        assert(dump_entry(self.0@, i as int)[k - out0.len()] < 0x80);
                    }
                }
            }
            i = i + 1;
        }
        proof {
            assert forall|k: int|
                0 <= k < out@.len() implies #[trigger] is_leading_byte_width_1(out@[k]) by {
                assert(out@[k] < 0x80);
            }
            assert(out@.subrange(0, 0) =~= Seq::<u8>::empty());
            partial_valid_utf8_extend_ascii_block(out@, 0, out@.len() as int);
            assert(out@.subrange(0, out@.len() as int) =~= out@);
        }
        match bytes_to_string(out.as_slice()) {
            Some(s) => s,
            None => {
                proof {
                    assert(false);
                }
                String::new()
            },
        }
    }
}

/// The ASCII digit of one hex place.
fn hex_digit_of(v: u8) -> (r: u8)
    requires
        v < 16,
    ensures
        r == hex_digit(v as int),
{
    if v < 10 {
        0x30 + v
    } else {
        0x57 + v
    }
}

/// Every octet of the offset column is ASCII.
proof fn lemma_hex_rep_ascii(n: int)
    ensures
        forall|k: int| 0 <= k < hex_rep(n).len() ==> #[trigger] hex_rep(n)[k] < 0x80,
    decreases n,
{
    if n > 0 {
        lemma_hex_rep_ascii(n / 16);
        assert forall|k: int| 0 <= k < hex_rep(n).len() implies #[trigger] hex_rep(n)[k]
            < 0x80 by {
            if k < hex_rep(n / 16).len() {
                assert(hex_rep(n)[k] == hex_rep(n / 16)[k]);
            } else {
                assert(hex_rep(n)[k] == hex_digit(n % 16));
            }
        }
    }
}

/// Every octet of the offset column is ASCII.
proof fn lemma_offset_hex_ascii(i: int)
    ensures
        forall|k: int| 0 <= k < offset_hex(i).len() ==> #[trigger] offset_hex(i)[k] < 0x80,
{
    lemma_hex_rep_ascii(i);
}

/// Append the offset column for `i` to `out`.
#[verifier::loop_isolation(false)]
fn push_offset_hex(out: &mut Vec<u8>, i: usize)
    ensures
        final(out)@ == old(out)@ + offset_hex(i as int),
{
    let mut tmp: Vec<u8> = Vec::new();
    let mut n: usize = i;
    proof {
        assert(tmp@.reverse() =~= Seq::<u8>::empty());
        assert(hex_rep(i as int) =~= hex_rep(n as int) + tmp@.reverse());
    }
    while n > 0
        invariant
            hex_rep(i as int) =~= hex_rep(n as int) + tmp@.reverse(),
        decreases n,
    {
        let ghost tmp0 = tmp@;
        tmp.push(hex_digit_of((n % 16) as u8));
        proof {
            assert(tmp@.reverse() =~= seq![hex_digit(n as int % 16)] + tmp0.reverse());
            assert(hex_rep(n as int) =~= hex_rep(n as int / 16) + seq![
                hex_digit(n as int % 16),
            ]);
            assert(hex_rep(i as int) =~= hex_rep((n / 16) as int) + tmp@.reverse());
        }
        n = n / 16;
    }
    proof {
        assert(hex_rep(0) =~= Seq::<u8>::empty());
        assert(hex_rep(i as int) =~= tmp@.reverse());
        assert(tmp@.reverse() =~= zero_pad(hex_rep(i as int), tmp@.len() as int));
    }
    while tmp.len() < 4
        invariant
            tmp@.reverse() =~= zero_pad(hex_rep(i as int), tmp@.len() as int),
            tmp@.len() >= hex_rep(i as int).len(),
            tmp@.len() <= 4 || tmp@.len() == hex_rep(i as int).len(),
        decreases 4 - tmp@.len(),
    {
        let ghost tmp0 = tmp@;
        tmp.push(0x30);
        proof {
            assert(tmp@.reverse() =~= seq![0x30u8] + tmp0.reverse());
            assert(tmp@.reverse() =~= zero_pad(hex_rep(i as int), tmp@.len() as int));
        }
    }
    proof {
        assert(tmp@.reverse() =~= offset_hex(i as int));
    }
    let ghost base = out@;
    let mut k: usize = tmp.len();
    while k > 0
        invariant
            k <= tmp@.len(),
            out@ =~= base + tmp@.reverse().take(tmp@.len() - k),
        decreases k,
    {
        k = k - 1;
        let ghost outp = out@;
        out.push(tmp[k]);
        proof {
            assert(tmp@.reverse()[tmp@.len() - 1 - k] == tmp@[k as int]);
            assert(out@ =~= base + tmp@.reverse().take(tmp@.len() - k));
        }
    }
    proof {
        assert(tmp@.reverse().take(tmp@.len() as int) =~= tmp@.reverse());
        assert(out@ =~= old(out)@ + offset_hex(i as int));
    }
}

} // verus!
