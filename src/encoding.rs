//! The byte encoding of a share: number, required and total share counts,
//! the count of fragments as a big-endian `u32`, each fragment preceded by
//! its length as a big-endian `u32`, and a Fletcher-16 checksum of all of
//! that.
use vstd::prelude::*;
use crate::backup::{BackupError, BackupShare};
use crate::crypto::{append_all, copy_range};

verus! {

/// Big-endian bytes of `n`.
pub open spec fn be32(n: u32) -> Seq<u8> {
    seq![(n >> 24u32) as u8, (n >> 16u32) as u8, (n >> 8u32) as u8, n as u8]
}

/// The number whose big-endian bytes are `b0 b1 b2 b3`.
pub open spec fn read_be32(b0: u8, b1: u8, b2: u8, b3: u8) -> u32 {
    ((b0 as u32) << 24u32) | ((b1 as u32) << 16u32) | ((b2 as u32) << 8u32) | (b3 as u32)
}

pub proof fn lemma_be32_round_trip(n: u32, b0: u8, b1: u8, b2: u8, b3: u8)
    ensures
        read_be32((n >> 24u32) as u8, (n >> 16u32) as u8, (n >> 8u32) as u8, n as u8) == n,
        be32(read_be32(b0, b1, b2, b3)) == seq![b0, b1, b2, b3],
{
    assert(((((n >> 24u32) as u8) as u32) << 24u32) | ((((n >> 16u32) as u8) as u32) << 16u32) | ((((n
        >> 8u32) as u8) as u32) << 8u32) | ((n as u8) as u32) == n) by (bit_vector);
    let m = read_be32(b0, b1, b2, b3);
    assert((m >> 24u32) as u8 == b0 && (m >> 16u32) as u8 == b1 && (m >> 8u32) as u8 == b2 && m as u8
        == b3) by (bit_vector)
        requires
            m == ((b0 as u32) << 24u32) | ((b1 as u32) << 16u32) | ((b2 as u32) << 8u32) | (b3 as u32),
    ;
    assert(be32(m) =~= seq![b0, b1, b2, b3]);
}

/// Every fragment, each preceded by its length.
pub open spec fn fragments_bytes(frags: Seq<Vec<u8>>) -> Seq<u8>
    decreases frags.len(),
{
    if frags.len() == 0 {
        Seq::empty()
    } else {
        let last = frags.last();
        fragments_bytes(frags.drop_last()) + be32(last@.len() as u32) + last@
    }
}

/// What the checksum covers.
pub open spec fn share_body(s: BackupShare) -> Seq<u8> {
    seq![s.number, s.required_shares, s.num_shares] + be32(s.fragments@.len() as u32) + fragments_bytes(
        s.fragments@,
    )
}

/// The two Fletcher-16 sums (modulo 255) of `b`.
pub open spec fn fletcher(b: Seq<u8>) -> (u8, u8)
    decreases b.len(),
{
    if b.len() == 0 {
        (0, 0)
    } else {
        let (s1, s2) = fletcher(b.drop_last());
        let t1 = ((s1 + b.last()) % 255) as u8;
        (t1, ((s2 + t1) % 255) as u8)
    }
}

/// The full encoding of a share.
pub open spec fn encoding(s: BackupShare) -> Seq<u8> {
    let body = share_body(s);
    body + seq![fletcher(body).0, fletcher(body).1]
}

/// A share the encoding can hold: at most 2^32 - 1 fragments of at most
/// 2^32 - 1 bytes each.
pub open spec fn encodable(s: BackupShare) -> bool {
    &&& s.fragments@.len() <= u32::MAX
    &&& forall|j: int| 0 <= j < s.fragments@.len() ==> (#[trigger] s.fragments@[j])@.len() <= u32::MAX
}

fn push_be32(out: &mut Vec<u8>, n: u32)
    ensures
        final(out)@ == old(out)@ + be32(n),
{
    out.push((n >> 24u32) as u8);
    out.push((n >> 16u32) as u8);
    out.push((n >> 8u32) as u8);
    out.push(n as u8);
    assert(final(out)@ =~= old(out)@ + be32(n));
}

/// The Fletcher-16 sums of `b`.
pub fn checksum(b: &Vec<u8>) -> (r: (u8, u8))
    ensures
        r == fletcher(b@),
{
    let mut s1: u8 = 0;
    let mut s2: u8 = 0;
    let mut i: usize = 0;
    while i < b.len()
        invariant
            i <= b.len(),
            (s1, s2) == fletcher(b@.subrange(0, i as int)),
        decreases b.len() - i,
    {
        assert(b@.subrange(0, i as int + 1).drop_last() =~= b@.subrange(0, i as int));
        let t1 = ((s1 as u16 + b[i] as u16) % 255) as u8;
        s2 = ((s2 as u16 + t1 as u16) % 255) as u8;
        s1 = t1;
        i = i + 1;
    }
    assert(b@.subrange(0, b.len() as int) =~= b@);
    (s1, s2)
}

/// Encodes a share into bytes.
pub fn encode_share(s: &BackupShare) -> (r: Vec<u8>)
    requires
        encodable(*s),
    ensures
        r@ == encoding(*s),
{
    let mut out: Vec<u8> = Vec::new();
    out.push(s.number);
    out.push(s.required_shares);
    out.push(s.num_shares);
    push_be32(&mut out, s.fragments.len() as u32);
    let ghost head = out@;
    let mut j: usize = 0;
    while j < s.fragments.len()
        invariant
            j <= s.fragments.len(),
            encodable(*s),
            out@ == head + fragments_bytes(s.fragments@.subrange(0, j as int)),
        decreases s.fragments.len() - j,
    {
        let ghost before = out@;
        let f = &s.fragments[j];
        push_be32(&mut out, f.len() as u32);
        append_all(&mut out, f);
        assert(s.fragments@.subrange(0, j as int + 1).drop_last() =~= s.fragments@.subrange(0, j as int));
        j = j + 1;
        assert(out@ =~= head + fragments_bytes(s.fragments@.subrange(0, j as int)));
    }
    assert(s.fragments@.subrange(0, j as int) =~= s.fragments@);
    assert(out@ =~= share_body(*s));
    let (c1, c2) = checksum(&out);
    out.push(c1);
    out.push(c2);
    out
}

proof fn lemma_fragments_bytes_views(a: Seq<Vec<u8>>, b: Seq<Vec<u8>>)
    requires
        a.len() == b.len(),
        forall|i: int| 0 <= i < a.len() ==> (#[trigger] a[i])@ == b[i]@,
    ensures
        fragments_bytes(a) == fragments_bytes(b),
    decreases a.len(),
{
    if a.len() > 0 {
        lemma_fragments_bytes_views(a.drop_last(), b.drop_last());
    }
}

/// The bytes of the first `k` fragments are a prefix of the bytes of all.
proof fn lemma_fragments_bytes_prefix(fs: Seq<Vec<u8>>, k: int)
    requires
        0 <= k <= fs.len(),
    ensures
        fragments_bytes(fs.subrange(0, k)).len() <= fragments_bytes(fs).len(),
        fragments_bytes(fs) .subrange(0, fragments_bytes(fs.subrange(0, k)).len() as int)
            == fragments_bytes(fs.subrange(0, k)),
    decreases fs.len() - k,
{
    if k == fs.len() {
        assert(fs.subrange(0, k) =~= fs);
        assert(fragments_bytes(fs).subrange(0, fragments_bytes(fs).len() as int) =~= fragments_bytes(fs));
    } else {
        lemma_fragments_bytes_prefix(fs, k + 1);
        let a = fragments_bytes(fs.subrange(0, k));
        let b = fragments_bytes(fs.subrange(0, k + 1));
        assert(fs.subrange(0, k + 1).drop_last() =~= fs.subrange(0, k));
        assert(b.subrange(0, a.len() as int) =~= a);
        assert(fragments_bytes(fs).subrange(0, a.len() as int) =~= b.subrange(0, a.len() as int));
    }
}

/// Decodes a share from bytes. Succeeds exactly on the encodings of the
/// shares the encoding can hold; anything else, such as a checksum that does
/// not match or a length that runs past the end, is an `EncodingFailure`.
pub fn decode_share(bytes: &Vec<u8>) -> (r: Result<BackupShare, BackupError>)
    ensures
        r matches Ok(s) ==> encodable(s) && encoding(s) == bytes@,
        r matches Err(e) ==> e == BackupError::EncodingFailure,
        (exists|t: BackupShare| encodable(t) && #[trigger] encoding(t) == bytes@) ==> r is Ok,
{
    let ghost ok = exists|t: BackupShare| encodable(t) && #[trigger] encoding(t) == bytes@;
    let ghost t = choose|t: BackupShare| encodable(t) && #[trigger] encoding(t) == bytes@;
    let ghost tb = share_body(t);
    if bytes.len() < 9 {
        proof {
            if ok {
                assert(encoding(t).len() >= 9);
            }
        }
        return Err(BackupError::EncodingFailure);
    }
    let blen = bytes.len() - 2;
    let body = copy_range(bytes, 0, blen);
    proof {
        if ok {
            assert(body@ =~= tb);
        }
    }
    let (c1, c2) = checksum(&body);
    if c1 != bytes[blen] || c2 != bytes[blen + 1] {
        return Err(BackupError::EncodingFailure);
    }
    assert(bytes@ =~= body@ + seq![c1, c2]);
    let number = body[0];
    let required_shares = body[1];
    let num_shares = body[2];
    let m = ((body[3] as u32) << 24u32) | ((body[4] as u32) << 16u32) | ((body[5] as u32) << 8u32) | (
    body[6] as u32);
    assert(m == read_be32(body@[3], body@[4], body@[5], body@[6]));
    proof {
        lemma_be32_round_trip(t.fragments@.len() as u32, body@[3], body@[4], body@[5], body@[6]);
    }
    let ghost head = seq![number, required_shares, num_shares] + be32(m);
    assert(body@.subrange(0, 7) =~= head);
    proof {
        if ok {
            assert(tb.subrange(0, 7) =~= seq![t.number, t.required_shares, t.num_shares] + be32(
                t.fragments@.len() as u32,
            ));
            assert(m == t.fragments@.len());
        }
    }
    let mut frags: Vec<Vec<u8>> = Vec::new();
    let mut offset: usize = 7;
    let mut k: u32 = 0;
    while k < m
        invariant
            blen == body.len(),
            7 <= offset <= blen,
            frags.len() == k,
            k <= m,
            forall|j: int| 0 <= j < frags.len() ==> (#[trigger] frags@[j])@.len() <= u32::MAX,
            body@.subrange(0, offset as int) == head + fragments_bytes(frags@),
            ok ==> body@ == tb,
            tb == share_body(t),
            ok == (exists|t: BackupShare| encodable(t) && #[trigger] encoding(t) == bytes@),
            head == seq![number, required_shares, num_shares] + be32(m),
            ok ==> encoding(t) == bytes@,
            ok ==> m == t.fragments@.len(),
            ok ==> encodable(t),
            ok ==> forall|j: int| 0 <= j < k ==> (#[trigger] frags@[j])@ == t.fragments@[j]@,
        decreases m - k,
    {
        let ghost prefix = fragments_bytes(t.fragments@.subrange(0, k as int));
        let ghost next = fragments_bytes(t.fragments@.subrange(0, k as int + 1));
        let ghost lk: int = if ok { t.fragments@[k as int]@.len() as int } else { 0 };
        assert(ok ==> offset + 4 + lk <= blen && body@.subrange(offset as int, offset + 4 + lk) == be32(
            lk as u32,
        ) + t.fragments@[k as int]@) by {
            if ok {
                assert(frags@.len() == t.fragments@.subrange(0, k as int).len());
                lemma_fragments_bytes_views(frags@, t.fragments@.subrange(0, k as int));
                lemma_fragments_bytes_prefix(t.fragments@, k as int + 1);
                assert(t.fragments@.subrange(0, k as int + 1).drop_last() =~= t.fragments@.subrange(0, k as int));
                assert(tb =~= seq![t.number, t.required_shares, t.num_shares] + be32(t.fragments@.len() as u32)
                    + fragments_bytes(t.fragments@));
                assert(offset == 7 + prefix.len());
                assert(next == prefix + be32(t.fragments@[k as int]@.len() as u32) + t.fragments@[k as int]@);
                assert(body@.subrange(7, 7 + next.len() as int) =~= next);
                assert(body@.subrange(offset as int, offset + 4 + lk) =~= next.subrange(prefix.len() as int, next.len() as int));
            }
        }
        if blen - offset < 4 {
            return Err(BackupError::EncodingFailure);
        }
        let n = ((body[offset] as u32) << 24u32) | ((body[offset + 1] as u32) << 16u32) | ((body[offset
            + 2] as u32) << 8u32) | (body[offset + 3] as u32);
        let ghost quad = body@.subrange(offset as int, offset + 4);
        proof {
            lemma_be32_round_trip(
                t.fragments@[k as int]@.len() as u32,
                body@[offset as int],
                body@[offset + 1],
                body@[offset + 2],
                body@[offset + 3],
            );
            assert(quad =~= seq![body@[offset as int], body@[offset + 1], body@[offset + 2], body@[offset + 3]]);
        }
        proof {
            if ok {
                assert(quad =~= body@.subrange(offset as int, offset + 4 + lk).subrange(0, 4));
                assert(n == t.fragments@[k as int]@.len());
            }
        }
        if (n as usize) > blen - offset - 4 {
            return Err(BackupError::EncodingFailure);
        }
        let start = offset + 4;
        let end = start + n as usize;
        let frag = copy_range(&body, start, end);
        let ghost old_frags = frags@;
        frags.push(frag);
        assert(frags@.drop_last() =~= old_frags);
        assert(body@.subrange(0, end as int) =~= body@.subrange(0, offset as int) + quad + frag@);
        proof {
            if ok {
                assert(frag@ =~= body@.subrange(offset as int, offset + 4 + lk).subrange(4, 4 + lk));
            }
        }
        offset = end;
        k = k + 1;
    }
    if offset != blen {
        proof {
            if ok {
                lemma_fragments_bytes_views(frags@, t.fragments@.subrange(0, k as int));
                assert(t.fragments@.subrange(0, k as int) =~= t.fragments@);
                assert(tb =~= seq![t.number, t.required_shares, t.num_shares] + be32(t.fragments@.len() as u32)
                    + fragments_bytes(t.fragments@));
            }
        }
        return Err(BackupError::EncodingFailure);
    }
    let s = BackupShare { number, required_shares, num_shares, fragments: frags };
    assert(body@.subrange(0, blen as int) =~= body@);
    assert(share_body(s) =~= body@);
    Ok(s)
}

/// The lowercase hexadecimal digit of a value below 16.
pub open spec fn hex_digit(n: int) -> u8 {
    if n < 10 {
        (48 + n) as u8
    } else {
        (87 + n) as u8
    }
}

/// The value of a lowercase hexadecimal digit.
pub open spec fn digit_value(c: u8) -> Option<u8> {
    if 48 <= c <= 57 {
        Some((c - 48) as u8)
    } else if 97 <= c <= 102 {
        Some((c - 87) as u8)
    } else {
        None
    }
}

/// Two lowercase hexadecimal digits for each byte, high digit first.
pub open spec fn hex_of(b: Seq<u8>) -> Seq<u8> {
    Seq::new(
        2 * b.len(),
        |i: int|
            if i % 2 == 0 {
                hex_digit(b[i / 2] as int / 16)
            } else {
                hex_digit(b[i / 2] as int % 16)
            },
    )
}

fn hex_digit_exec(n: u8) -> (r: u8)
    requires
        n < 16,
    ensures
        r == hex_digit(n as int),
        digit_value(r) == Some(n),
{
    if n < 10 {
        48 + n
    } else {
        87 + n
    }
}

fn digit_value_exec(c: u8) -> (r: Option<u8>)
    ensures
        r == digit_value(c),
        r matches Some(n) ==> n < 16 && hex_digit(n as int) == c,
{
    if 48 <= c && c <= 57 {
        Some(c - 48)
    } else if 97 <= c && c <= 102 {
        Some(c - 87)
    } else {
        None
    }
}

/// Writes bytes as lowercase hexadecimal text.
pub fn to_hex(b: &Vec<u8>) -> (r: Vec<u8>)
    requires
        b.len() <= usize::MAX / 2,
    ensures
        r@ == hex_of(b@),
{
    let mut r: Vec<u8> = Vec::new();
    let mut i: usize = 0;
    while i < b.len()
        invariant
            i <= b.len() <= usize::MAX / 2,
            r@.len() == 2 * i,
            forall|k: int| 0 <= k < 2 * i ==> #[trigger] r@[k] == hex_of(b@)[k],
        decreases b.len() - i,
    {
        r.push(hex_digit_exec(b[i] / 16));
        r.push(hex_digit_exec(b[i] % 16));
        i = i + 1;
    }
    assert(r@ =~= hex_of(b@));
    r
}

/// Reads lowercase hexadecimal text back into bytes; `EncodingFailure` on
/// an odd length or a character that is not a lowercase hexadecimal digit.
pub fn from_hex(text: &Vec<u8>) -> (r: Result<Vec<u8>, BackupError>)
    ensures
        r matches Ok(b) ==> hex_of(b@) == text@,
        r matches Err(e) ==> e == BackupError::EncodingFailure,
        (exists|b: Seq<u8>| #[trigger] hex_of(b) == text@) ==> r is Ok,
{
    let ghost ok = exists|b: Seq<u8>| #[trigger] hex_of(b) == text@;
    let ghost w = choose|b: Seq<u8>| #[trigger] hex_of(b) == text@;
    if text.len() % 2 != 0 {
        return Err(BackupError::EncodingFailure);
    }
    let n = text.len() / 2;
    let mut out: Vec<u8> = Vec::new();
    let mut i: usize = 0;
    while i < n
        invariant
            n == text.len() / 2,
            text.len() % 2 == 0,
            i <= n,
            out@.len() == i,
            forall|k: int| 0 <= k < 2 * i ==> #[trigger] hex_of(out@)[k] == text@[k],
            ok ==> hex_of(w) == text@,
        decreases n - i,
    {
        let hi = digit_value_exec(text[2 * i]);
        let lo = digit_value_exec(text[2 * i + 1]);
        proof {
            if ok {
                assert(w[i as int] as int / 16 < 16 && w[i as int] as int % 16 < 16);
                assert(hex_of(w)[2 * i as int] == text@[2 * i as int]);
                assert(hex_of(w)[2 * i + 1] == text@[2 * i + 1]);
                assert((2 * i as int) / 2 == i as int && (2 * i as int) % 2 == 0);
                assert((2 * i as int + 1) / 2 == i as int && (2 * i as int + 1) % 2 == 1);
            }
        }
        match (hi, lo) {
            (Some(h), Some(l)) => {
                let ghost before = out@;
                out.push(h * 16 + l);
                assert forall|k: int| 0 <= k < 2 * (i + 1) implies #[trigger] hex_of(out@)[k] == text@[k] by {
                    if k < 2 * i {
                        assert(hex_of(out@)[k] == hex_of(before)[k]);
                    } else {
                        assert((h * 16 + l) as int / 16 == h as int && (h * 16 + l) as int % 16 == l as int);
                    }
                }
            },
            _ => {
                return Err(BackupError::EncodingFailure);
            },
        }
        i = i + 1;
    }
    assert(hex_of(out@) =~= text@);
    Ok(out)
}

/// The printable text of a share: its encoding in lowercase hexadecimal.
pub fn share_to_text(share: &BackupShare) -> (r: Vec<u8>)
    requires
        encodable(*share),
        encoding(*share).len() <= usize::MAX / 2,
    ensures
        r@ == hex_of(encoding(*share)),
{
    let bytes = encode_share(share);
    to_hex(&bytes)
}

/// Reads a share back from its printable text. Succeeds exactly on the
/// texts of the shares the encoding can hold; `EncodingFailure` otherwise,
/// so a transcription error that breaks a digit or the checksum is caught.
pub fn share_from_text(text: &Vec<u8>) -> (r: Result<BackupShare, BackupError>)
    ensures
        r matches Ok(s) ==> encodable(s) && hex_of(encoding(s)) == text@,
        r matches Err(e) ==> e == BackupError::EncodingFailure,
        (exists|t: BackupShare| encodable(t) && #[trigger] hex_of(encoding(t)) == text@) ==> r is Ok,
{
    let ghost ok = exists|t: BackupShare| encodable(t) && #[trigger] hex_of(encoding(t)) == text@;
    let ghost t = choose|t: BackupShare| encodable(t) && #[trigger] hex_of(encoding(t)) == text@;
    let bytes = match from_hex(text) {
        Ok(b) => b,
        Err(e) => {
            return Err(e);
        },
    };
    proof {
        if ok {
            lemma_hex_injective(bytes@, encoding(t));
        }
    }
    decode_share(&bytes)
}

/// Different bytes have different hexadecimal text.
pub proof fn lemma_hex_injective(a: Seq<u8>, b: Seq<u8>)
    requires
        hex_of(a) == hex_of(b),
    ensures
        a == b,
{
    assert(hex_of(a).len() == 2 * a.len() && hex_of(b).len() == 2 * b.len());
    assert(a.len() == b.len());
    assert forall|i: int| 0 <= i < a.len() implies a[i] == b[i] by {
        let (ah, al, bh, bl) = (a[i] as int / 16, a[i] as int % 16, b[i] as int / 16, b[i] as int % 16);
        assert(0 <= ah < 16 && 0 <= al < 16 && 0 <= bh < 16 && 0 <= bl < 16);
        assert(hex_of(a)[2 * i] == hex_of(b)[2 * i]);
        assert(hex_of(a)[2 * i + 1] == hex_of(b)[2 * i + 1]);
        assert((2 * i) / 2 == i && (2 * i) % 2 == 0);
        assert((2 * i + 1) / 2 == i && (2 * i + 1) % 2 == 1);
        assert(hex_of(a)[2 * i] == hex_digit(ah));
        assert(hex_of(b)[2 * i] == hex_digit(bh));
        assert(hex_of(a)[2 * i + 1] == hex_digit(al));
        assert(hex_of(b)[2 * i + 1] == hex_digit(bl));
        assert(digit_value(hex_digit(ah)) == Some(ah as u8));
        assert(digit_value(hex_digit(bh)) == Some(bh as u8));
        assert(digit_value(hex_digit(al)) == Some(al as u8));
        assert(digit_value(hex_digit(bl)) == Some(bl as u8));
        assert(a[i] as int == ah * 16 + al);
        assert(b[i] as int == bh * 16 + bl);
    }
    assert(a =~= b);
}

} // verus!
