//! IPv4 prefixes as trie keys.

use vstd::prelude::*;
use ipnet::Ipv4Net;
use ipnet::PrefixLenError;
use crate::prefix::Prefix;
use crate::prefix::canonical;
use crate::prefix::covers;
use crate::prefix::valid;

verus! {

/// `ipnet::Ipv4Net`, an IPv4 address with a prefix length, taken as an opaque value.
#[verifier::external_type_specification]
#[verifier::external_body]
pub struct ExIpv4Net(Ipv4Net);

/// `ipnet::PrefixLenError`, the error of a prefix length beyond the address width.
#[verifier::external_type_specification]
#[verifier::external_body]
pub struct ExPrefixLenError(PrefixLenError);

/// What `Ipv4Net::addr` and then `Ipv4Addr::octets` give for `net`: the four octets of
/// its address, most significant first.
pub uninterp spec fn net_octets(net: Ipv4Net) -> [u8; 4];

/// What `Ipv4Net::prefix_len` gives for `net`: the prefix length that it carries.
pub uninterp spec fn net_len(net: Ipv4Net) -> u8;

/// Calls `Ipv4Net::addr` and `Ipv4Addr::octets`. Nothing is claimed of the octets but
/// that they are those of `net`.
#[verifier::external_body]
fn octets_of(net: &Ipv4Net) -> (r: [u8; 4])
    ensures
        r == net_octets(*net),
{
    net.addr().octets()
}

/// Calls `Ipv4Net::prefix_len`. Nothing is claimed of the length but that it is that
/// of `net`; in particular not that it is at most 32.
#[verifier::external_body]
fn len_of(net: &Ipv4Net) -> (r: u8)
    ensures
        r == net_len(*net),
{
    net.prefix_len()
}

/// Calls `Ipv4Net::new` on the address that `Ipv4Addr::from` makes of `octets`. The
/// claim is that it succeeds exactly for a length of at most 32, and that the value it
/// then gives carries these octets and this length.
#[verifier::external_body]
fn make_net(octets: [u8; 4], len: u8) -> (r: Result<Ipv4Net, PrefixLenError>)
    ensures
        r is Ok <==> len <= 32,
        r matches Ok(net) ==> net_octets(net) == octets && net_len(net) == len,
{
    Ipv4Net::new(octets.into(), len)
}

/// Octets whose leading bits are set, indexed by the number of set bits.
const MASK_BITS: [u8; 9] = [0x00, 0x80, 0xc0, 0xe0, 0xf0, 0xf8, 0xfc, 0xfe, 0xff];

/// The octet whose `n` leading bits are set and whose other bits are clear.
pub open spec fn octet_mask(n: u8) -> u8 {
    if n == 0 {
        0x00u8
    } else if n == 1 {
        0x80u8
    } else if n == 2 {
        0xc0u8
    } else if n == 3 {
        0xe0u8
    } else if n == 4 {
        0xf0u8
    } else if n == 5 {
        0xf8u8
    } else if n == 6 {
        0xfcu8
    } else if n == 7 {
        0xfeu8
    } else {
        0xffu8
    }
}

/// Bit `j` of an octet, counted from its most significant bit.
pub open spec fn octet_bit(b: u8, j: u8) -> bool {
    (b >> ((7u8 - j) as u8)) & 1u8 == 1u8
}

/// How many leading bits of octet `j` lie within the first `len` bits of an address.
pub open spec fn kept_bits(len: int, j: int) -> u8 {
    if len >= 8 * j + 8 {
        8u8
    } else if len > 8 * j {
        (len - 8 * j) as u8
    } else {
        0u8
    }
}

/// The octets of an address with every bit from offset `len` on cleared.
pub open spec fn masked_octets(o: Seq<u8>, len: int) -> Seq<u8> {
    Seq::new(4, |j: int| o[j] & octet_mask(kept_bits(len, j)))
}

/// Masking keeps the bits under the mask and clears the others.
proof fn lemma_mask_bit(b: u8, n: u8, j: u8)
    by (bit_vector)
    requires
        n <= 8,
        j < 8,
    ensures
        octet_bit(b & octet_mask(n), j) == (j < n && octet_bit(b, j)),
{
}

/// Octets that a mask cannot tell apart agree in every bit under the mask.
proof fn lemma_mask_agree(l: u8, r: u8, n: u8, j: u8)
    by (bit_vector)
    requires
        n <= 8,
        j < n,
        octet_mask(n) & (l ^ r) == 0,
    ensures
        octet_bit(l, j) == octet_bit(r, j),
{
}

/// Octets that a mask tells apart differ in a bit under the mask.
proof fn lemma_mask_differ(l: u8, r: u8, n: u8)
    by (bit_vector)
    requires
        n <= 8,
        octet_mask(n) & (l ^ r) != 0,
    ensures
        (0 < n && octet_bit(l, 0) != octet_bit(r, 0)) || (1 < n && octet_bit(l, 1) != octet_bit(
            r,
            1,
        )) || (2 < n && octet_bit(l, 2) != octet_bit(r, 2)) || (3 < n && octet_bit(l, 3)
            != octet_bit(r, 3)) || (4 < n && octet_bit(l, 4) != octet_bit(r, 4)) || (5 < n
            && octet_bit(l, 5) != octet_bit(r, 5)) || (6 < n && octet_bit(l, 6) != octet_bit(r, 6))
            || (7 < n && octet_bit(l, 7) != octet_bit(r, 7)),
{
}

/// Octets that differ are told apart by the full mask.
proof fn lemma_octets_differ(l: u8, r: u8)
    by (bit_vector)
    requires
        l != r,
    ensures
        octet_mask(8) & (l ^ r) != 0,
{
}

/// The probe for bit `t` finds no difference exactly when the octets agree in bit `t`.
proof fn lemma_probe(l: u8, r: u8, t: u8)
    by (bit_vector)
    requires
        t < 8,
    ensures
        ((0x80u8 >> t) & (l ^ r)) == 0 <==> octet_bit(l, t) == octet_bit(r, t),
{
}

/// Where a difference lies at or behind bit `t` and not at bit `t`, it lies behind it.
proof fn lemma_probe_next(diff: u8, t: u8)
    by (bit_vector)
    requires
        t < 8,
        diff & (0xffu8 >> t) != 0,
        ((0x80u8 >> t) & diff) == 0,
    ensures
        t < 7,
        diff & (0xffu8 >> ((t + 1) as u8)) != 0,
{
}

/// Octets that differ differ in some bit; the first probe is for the leading bit.
proof fn lemma_probe_start(l: u8, r: u8)
    by (bit_vector)
    requires
        l != r,
    ensures
        (l ^ r) & (0xffu8 >> 0u8) != 0,
        0x80u8 >> 0u8 == 0x80u8,
{
}

/// The zero octet has no bit set.
proof fn lemma_zero_bit(j: u8)
    by (bit_vector)
    requires
        j < 8,
    ensures
        !octet_bit(0u8, j),
{
}

/// Shifting the probe by one moves it to the next bit.
proof fn lemma_shift_step(t: u8)
    by (bit_vector)
    requires
        t < 7,
    ensures
        (0x80u8 >> t) >> 1u8 == 0x80u8 >> ((t + 1) as u8),
{
}

/// Reads the mask table.
fn mask_bits(n: u8) -> (m: u8)
    requires
        n <= 8,
    ensures
        m == octet_mask(n),
{
    MASK_BITS[n as usize]
}

/// The number of leading bits of octet `j` that lie within the first `len` bits.
fn kept(len: u8, j: u8) -> (n: u8)
    requires
        len <= 32,
        j < 4,
    ensures
        n == kept_bits(len as int, j as int),
        n <= 8,
{
    let lo: u8 = 8 * j;
    if len >= lo + 8 {
        8
    } else if len > lo {
        len - lo
    } else {
        0
    }
}

/// The address bit at offset `8 * q + j` is bit `j` of octet `q`.
proof fn lemma_bit_in_octet(net: Ipv4Net, q: int, j: u8)
    requires
        0 <= q,
        j < 8,
    ensures
        net.spec_bit(8 * q + j) == octet_bit(net_octets(net)@[q], j),
{
}

/// Two octets that a mask tells apart differ in one of the bits under the mask.
proof fn lemma_find_differing_bit(a: Ipv4Net, b: Ipv4Net, q: int, n: u8) -> (i: int)
    requires
        0 <= q,
        n <= 8,
        octet_mask(n) & (net_octets(a)@[q] ^ net_octets(b)@[q]) != 0,
    ensures
        8 * q <= i < 8 * q + n,
        a.spec_bit(i) != b.spec_bit(i),
{
    let l = net_octets(a)@[q];
    let r = net_octets(b)@[q];
    lemma_mask_differ(l, r, n);
    let j: u8 = if 0 < n && octet_bit(l, 0) != octet_bit(r, 0) {
        0
    } else if 1 < n && octet_bit(l, 1) != octet_bit(r, 1) {
        1
    } else if 2 < n && octet_bit(l, 2) != octet_bit(r, 2) {
        2
    } else if 3 < n && octet_bit(l, 3) != octet_bit(r, 3) {
        3
    } else if 4 < n && octet_bit(l, 4) != octet_bit(r, 4) {
        4
    } else if 5 < n && octet_bit(l, 5) != octet_bit(r, 5) {
        5
    } else if 6 < n && octet_bit(l, 6) != octet_bit(r, 6) {
        6
    } else {
        7
    };
    8 * q + j
}

impl Prefix for Ipv4Net {
    open spec fn spec_width() -> nat {
        32
    }

    open spec fn spec_len(&self) -> nat {
        net_len(*self) as nat
    }

    open spec fn spec_bit(&self, i: int) -> bool {
        octet_bit(net_octets(*self)@[i / 8], (i % 8) as u8)
    }

    proof fn width_fits() {
    }

    fn to_masked(&self) -> (r: Self)
        ensures
            net_len(r) == net_len(*self),
            net_octets(r)@ == masked_octets(net_octets(*self)@, net_len(*self) as int),
    {
        let o = octets_of(self);
        let len = len_of(self);
        let masked: [u8; 4] = [
            o[0] & mask_bits(kept(len, 0)),
            o[1] & mask_bits(kept(len, 1)),
            o[2] & mask_bits(kept(len, 2)),
            o[3] & mask_bits(kept(len, 3)),
        ];
        let r = make_net(masked, len).unwrap();
        proof {
            assert forall|i: int| 0 <= i < 32 implies #[trigger] r.spec_bit(i) == (i < len
                && self.spec_bit(i)) by {
                let q = i / 8;
                let j = (i % 8) as u8;
                lemma_mask_bit(o@[q], kept_bits(len as int, q), j);
            }
        }
        r
    }

    fn contains(&self, prefix: &Self) -> (r: bool) {
        let alen = len_of(self);
        let blen = len_of(prefix);
        if alen > blen {
            return false;
        }
        let lp = octets_of(self);
        let rp = octets_of(prefix);
        let shift: u8 = alen % 8;
        let mut offset: usize = (alen / 8) as usize;
        if shift > 0 {
            if (mask_bits(shift) & (lp[offset] ^ rp[offset])) > 0 {
                proof {
                    let i = lemma_find_differing_bit(*self, *prefix, offset as int, shift);
                }
                return false;
            }
            proof {
                assert forall|i: int| 8 * offset <= i < alen implies self.spec_bit(i)
                    == prefix.spec_bit(i) by {
                    lemma_mask_agree(lp@[offset as int], rp@[offset as int], shift, (i % 8) as u8);
                }
            }
        }
        while offset > 0
            invariant
                offset <= alen / 8,
                alen <= 32,
                lp == net_octets(*self),
                rp == net_octets(*prefix),
                alen == net_len(*self),
                forall|i: int| 8 * offset <= i < alen ==> self.spec_bit(i) == prefix.spec_bit(i),
            decreases offset,
        {
            offset -= 1;
            if lp[offset] != rp[offset] {
                proof {
                    lemma_octets_differ(lp@[offset as int], rp@[offset as int]);
                    let i = lemma_find_differing_bit(*self, *prefix, offset as int, 8);
                }
                return false;
            }
        }
        true
    }

    fn bit_at(&self, index: u8) -> (r: u8) {
        let offset: u8 = index / 8;
        let shift: u8 = 7 - (index % 8);
        let octets = octets_of(self);
        let b: u8 = octets[offset as usize];
        assert((b >> shift) & 1u8 == 1u8 || (b >> shift) & 1u8 == 0u8) by (bit_vector);
        (b >> shift) & 0x1
    }

    fn from_common(prefix1: &Self, prefix2: &Self) -> (r: Self)
        ensures
            forall|i: int|
                #![trigger r.spec_bit(i)]
                r.spec_len() <= i < 32 ==> !r.spec_bit(i),
    {
        let octets1 = octets_of(prefix1);
        let octets2 = octets_of(prefix2);
        let len1 = len_of(prefix1);
        let len2 = len_of(prefix2);
        let limit: u8 = if len1 < len2 { len1 } else { len2 };
        let mut octets: [u8; 4] = [0u8, 0u8, 0u8, 0u8];

        let mut i: usize = 0;
        while i < (limit / 8) as usize && octets1[i] == octets2[i]
            invariant
                i <= limit / 8,
                limit <= 32,
                forall|k: int| 0 <= k < i ==> octets1@[k] == octets2@[k] && octets@[k] == octets1@[k],
                forall|k: int| i <= k < 4 ==> octets@[k] == 0,
            decreases limit / 8 - i,
        {
            octets[i] = octets1[i];
            i += 1;
        }

        let mut prefixlen: u8 = (i * 8) as u8;

        if prefixlen != limit {
            let diff: u8 = octets1[i] ^ octets2[i];
            let mut mask: u8 = 0x80u8;
            let ghost stopped = i < limit / 8;
            proof {
                if stopped {
                    lemma_probe_start(octets1@[i as int], octets2@[i as int]);
                }
                lemma_probe_start(1u8, 0u8);
            }
            while prefixlen < limit && (mask & diff) == 0
                invariant
                    i < 4,
                    limit <= 32,
                    8 * i <= prefixlen <= limit,
                    prefixlen - 8 * i <= 7,
                    mask == 0x80u8 >> ((prefixlen - 8 * i) as u8),
                    diff == octets1@[i as int] ^ octets2@[i as int],
                    octets1 == net_octets(*prefix1),
                    octets2 == net_octets(*prefix2),
                    stopped ==> 8 * i + 8 <= limit && diff & (0xffu8 >> ((prefixlen - 8 * i) as u8))
                        != 0,
                    !stopped ==> limit < 8 * i + 8,
                    forall|k: int|
                        0 <= k < i ==> octets1@[k] == octets2@[k] && octets@[k] == octets1@[k],
                    forall|k: int| i <= k < 4 ==> octets@[k] == 0,
                    forall|k: int|
                        0 <= k < prefixlen ==> prefix1.spec_bit(k) == prefix2.spec_bit(k),
                decreases limit - prefixlen,
            {
                proof {
                    let t = (prefixlen - 8 * i) as u8;
                    if stopped {
                        lemma_probe_next(diff, t);
                    }
                    lemma_shift_step(t);
                    lemma_probe(octets1@[i as int], octets2@[i as int], t);
                }
                mask >>= 1;
                prefixlen += 1;
            }
            proof {
                let t = (prefixlen - 8 * i) as u8;
                lemma_probe(octets1@[i as int], octets2@[i as int], t);
            }
            octets[i] = octets1[i] & mask_bits(prefixlen % 8);
        }
        let r = make_net(octets, prefixlen).unwrap();
        proof {
            let t = (prefixlen % 8) as u8;
            assert forall|k: int| 0 <= k < 32 implies #[trigger] r.spec_bit(k) == (k < prefixlen
                && prefix1.spec_bit(k)) by {
                let q = k / 8;
                let j = (k % 8) as u8;
                lemma_mask_bit(octets1@[q], t, j);
                lemma_zero_bit(j);
            }
        }
        r
    }

    fn prefix_len(&self) -> (r: u8) {
        len_of(self)
    }
}

/// Whether the length of `net` is one that an IPv4 prefix can have.
pub fn has_valid_len(net: &Ipv4Net) -> (ok: bool)
    ensures
        ok == valid(*net),
{
    len_of(net) <= 32
}

/// The prefix of `len` bits with the address made of `octets`, if `len` is at most 32.
pub fn prefix_from_octets(octets: [u8; 4], len: u8) -> (r: Option<Ipv4Net>)
    ensures
        r is Some <==> len <= 32,
        r matches Some(net) ==> valid(net) && net_octets(net) == octets && net_len(net) == len,
{
    match make_net(octets, len) {
        Ok(net) => Some(net),
        Err(_) => None,
    }
}

/// Masking an octet twice is masking it once.
proof fn lemma_mask_twice(b: u8, n: u8)
    by (bit_vector)
    ensures
        (b & octet_mask(n)) & octet_mask(n) == b & octet_mask(n),
{
}

/// Octets that agree in every bit are equal.
proof fn lemma_octet_eq_by_bits(l: u8, r: u8)
    requires
        forall|j: u8| j < 8 ==> octet_bit(l, j) == octet_bit(r, j),
    ensures
        l == r,
{
    if l != r {
        lemma_octets_differ(l, r);
        lemma_mask_differ(l, r, 8);
    }
}

/// Masking twice is masking once.
pub proof fn law_masking_is_idempotent(o: Seq<u8>, len: int)
    ensures
        masked_octets(masked_octets(o, len), len) == masked_octets(o, len),
{
    assert forall|j: int| 0 <= j < 4 implies masked_octets(masked_octets(o, len), len)[j]
        == masked_octets(o, len)[j] by {
        lemma_mask_twice(o[j], kept_bits(len, j));
    }
}

/// Containment is a match under the mask: a prefix `a` whose bits beyond its length
/// are zero contains `b` exactly when `b` is at least as long as `a` and the address
/// of `b`, masked to the length of `a`, is the address of `a`.
pub proof fn law_contains_is_masked_match(a: Ipv4Net, b: Ipv4Net)
    requires
        valid(a),
        canonical(a),
    ensures
        covers(a, b) <==> net_len(b) >= net_len(a) && masked_octets(
            net_octets(b)@,
            net_len(a) as int,
        ) == net_octets(a)@,
{
    let ao = net_octets(a)@;
    let bo = net_octets(b)@;
    let alen = net_len(a) as int;
    let mo = masked_octets(bo, alen);
    if covers(a, b) {
        assert forall|q: int| 0 <= q < 4 implies mo[q] == ao[q] by {
            assert forall|j: u8| j < 8 implies octet_bit(mo[q], j) == octet_bit(ao[q], j) by {
                lemma_mask_bit(bo[q], kept_bits(alen, q), j);
                lemma_bit_in_octet(a, q, j);
            }
            lemma_octet_eq_by_bits(mo[q], ao[q]);
        }
        assert(mo =~= ao);
    }
    if net_len(b) >= net_len(a) && mo == ao {
        assert forall|i: int| 0 <= i < a.spec_len() implies a.spec_bit(i) == b.spec_bit(i) by {
            let q = i / 8;
            let j = (i % 8) as u8;
            lemma_mask_bit(bo[q], kept_bits(alen, q), j);
        }
    }
}

} // verus!
