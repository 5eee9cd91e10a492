use vstd::prelude::*;
use crate::cid::{ContentId, IdModel};

verus! {

/// A malformed identifier on the wire; `offset` is the byte at which reading failed.
#[derive(Debug, PartialEq, Eq, Structural, Clone, Copy)]
pub struct DecodeError {
    pub offset: usize,
}

/// Version tag of the binary identifier layout.
pub const CID_VERSION: u64 = 1;

/// Longest unsigned varint that a `u64` needs, in bytes.
pub const MAX_VARINT_LEN: usize = 10;

/// Unsigned LEB128 bytes of `n`: seven bits per byte, low bits first, the high
/// bit set on every byte but the last.
pub open spec fn varint(n: u64) -> Seq<u8>
    decreases n,
{
    if n < 128 {
        seq![n as u8]
    } else {
        seq![((n % 128) + 128) as u8] + varint(n / 128)
    }
}

/// Binary form of an identifier: version, payload type, hash function and
/// digest length as varints, then the digest.
pub open spec fn encoding(id: IdModel) -> Seq<u8> {
    varint(CID_VERSION) + varint(id.1) + varint(id.0) + varint(id.2.len() as u64) + id.2
}

/// Reads the varint that starts at `start`, having reached `pos`: its value
/// and the position after it, or the offset of the failure. Only the shortest
/// form is accepted: a varint may not end in a zero byte after its first.
pub open spec fn read_varint(s: Seq<u8>, start: int, pos: int) -> Result<(u64, int), int>
    decreases s.len() - pos,
{
    if pos < start || pos - start >= MAX_VARINT_LEN || pos >= s.len() {
        Err(pos)
    } else if pos > start && s[pos] == 0 {
        Err(pos)
    } else if s[pos] < 128 {
        Ok((s[pos] as u64, pos + 1))
    } else {
        match read_varint(s, start, pos + 1) {
            Err(e) => Err(e),
            Ok((v, next)) => {
                let low = (s[pos] - 128) as u64;
                if v > (u64::MAX - low) / 128 {
                    Err(pos)
                } else {
                    Ok(((low + 128 * v) as u64, next))
                }
            },
        }
    }
}

/// The identifier that bytes `s` hold, or the offset of the first problem.
pub open spec fn parse_id(s: Seq<u8>) -> Result<IdModel, int> {
    match read_varint(s, 0, 0) {
        Err(e) => Err(e),
        Ok((version, p1)) => if version != CID_VERSION {
            Err(0)
        } else {
            match read_varint(s, p1, p1) {
                Err(e) => Err(e),
                Ok((codec, p2)) => match read_varint(s, p2, p2) {
                    Err(e) => Err(e),
                    Ok((code, p3)) => match read_varint(s, p3, p3) {
                        Err(e) => Err(e),
                        Ok((len, p4)) => if len > s.len() - p4 {
                            Err(s.len() as int)
                        } else if len < s.len() - p4 {
                            Err(p4 + len)
                        } else {
                            Ok((code, codec, s.subrange(p4, s.len() as int)))
                        },
                    },
                },
            }
        },
    }
}

fn push_varint(out: &mut Vec<u8>, n: u64)
    ensures
        final(out)@ == old(out)@ + varint(n),
    decreases n,
{
    if n < 128 {
        out.push(n as u8);
    } else {
        out.push(((n % 128) + 128) as u8);
        push_varint(out, n / 128);
        assert(out@ =~= old(out)@ + varint(n));
    }
}

fn read_varint_at(b: &[u8], start: usize, pos: usize) -> (r: Result<(u64, usize), usize>)
    requires
        start <= pos <= b@.len(),
    ensures
        match r {
            Ok((v, p)) => read_varint(b@, start as int, pos as int) == Ok::<(u64, int), int>((v, p as int)),
            Err(e) => read_varint(b@, start as int, pos as int) == Err::<(u64, int), int>(e as int),
        },
        r matches Ok((_, p)) ==> pos < p <= b@.len(),
        r matches Err(e) ==> e <= b@.len(),
    decreases b@.len() - pos,
{
    if pos - start >= MAX_VARINT_LEN || pos >= b.len() {
        return Err(pos);
    }
    let byte = b[pos];
    if pos > start && byte == 0 {
        return Err(pos);
    }
    if byte < 128 {
        return Ok((byte as u64, pos + 1));
    }
    match read_varint_at(b, start, pos + 1) {
        Err(e) => Err(e),
        Ok((v, next)) => {
            let low = (byte - 128) as u64;
            if v > (u64::MAX - low) / 128 {
                Err(pos)
            } else {
                assert(128 * v <= u64::MAX - low) by (nonlinear_arith)
                    requires v <= (u64::MAX - low) / 128, low <= 127;
                Ok((low + 128 * v, next))
            }
        },
    }
}

impl ContentId {
    /// The identifier's binary wire form.
    pub fn to_bytes(&self) -> (r: Vec<u8>)
        requires
            self.digest@.len() <= u64::MAX,
        ensures
            r@ == encoding(self@),
    {
        let mut out: Vec<u8> = Vec::new();
        push_varint(&mut out, CID_VERSION);
        push_varint(&mut out, self.codec);
        push_varint(&mut out, self.hash_code);
        push_varint(&mut out, self.digest.len() as u64);
        let mut i: usize = 0;
        let ghost head = out@;
        while i < self.digest.len()
            invariant
                i <= self.digest@.len(),
                out@ == head + self.digest@.subrange(0, i as int),
            decreases self.digest@.len() - i,
        {
            out.push(self.digest[i]);
            assert(self.digest@.subrange(0, i + 1) == self.digest@.subrange(0, i as int).push(self.digest@[i as int]));
            i = i + 1;
        }
        assert(self.digest@.subrange(0, self.digest@.len() as int) == self.digest@);
        assert(out@ =~= encoding(self@));
        out
    }

    /// Reads an identifier from its binary wire form; a malformed input fails
    /// with the offset of the first byte that could not be read.
    pub fn from_bytes(b: &[u8]) -> (r: Result<ContentId, DecodeError>)
        ensures
            match r {
                Ok(id) => parse_id(b@) == Ok::<IdModel, int>(id@),
                Err(e) => parse_id(b@) == Err::<IdModel, int>(e.offset as int),
            },
            r matches Ok(id) ==> b@ == encoding(id@),
            r matches Err(e) ==> e.offset <= b@.len(),
    {
        let (version, p1) = match read_varint_at(b, 0, 0) {
            Err(e) => return Err(DecodeError { offset: e }),
            Ok(x) => x,
        };
        if version != CID_VERSION {
            return Err(DecodeError { offset: 0 });
        }
        let (codec, p2) = match read_varint_at(b, p1, p1) {
            Err(e) => return Err(DecodeError { offset: e }),
            Ok(x) => x,
        };
        let (code, p3) = match read_varint_at(b, p2, p2) {
            Err(e) => return Err(DecodeError { offset: e }),
            Ok(x) => x,
        };
        let (len, p4) = match read_varint_at(b, p3, p3) {
            Err(e) => return Err(DecodeError { offset: e }),
            Ok(x) => x,
        };
        let rest = b.len() - p4;
        if len > rest as u64 {
            return Err(DecodeError { offset: b.len() });
        }
        if len < rest as u64 {
            return Err(DecodeError { offset: p4 + len as usize });
        }
        let mut digest: Vec<u8> = Vec::new();
        let mut i: usize = p4;
        while i < b.len()
            invariant
                p4 <= i <= b@.len(),
                digest@ == b@.subrange(p4 as int, i as int),
            decreases b@.len() - i,
        {
            digest.push(b[i]);
            assert(b@.subrange(p4 as int, i + 1) == b@.subrange(p4 as int, i as int).push(b@[i as int]));
            i = i + 1;
        }
        let id = ContentId { hash_code: code, codec, digest };
        proof {
            lemma_decoded_is_encoding(b@);
        }
        Ok(id)
    }
}


/// 128 to the power `k`.
pub open spec fn cap(k: nat) -> int
    decreases k,
{
    if k == 0 {
        1
    } else {
        128 * cap((k - 1) as nat)
    }
}

proof fn lemma_varint_len(n: u64, k: nat)
    requires
        1 <= k,
        n < cap(k),
    ensures
        1 <= varint(n).len() <= k,
    decreases n,
{
    if n >= 128 {
        let c = cap((k - 1) as nat);
        assert(k >= 2) by {
            if k == 1 {
                assert(cap(0) == 1);
            }
        }
        assert((n / 128) < c) by (nonlinear_arith)
            requires n < 128 * c, n >= 128;
        lemma_varint_len(n / 128, (k - 1) as nat);
    }
}

proof fn lemma_varint_fits(n: u64)
    ensures
        1 <= varint(n).len() <= MAX_VARINT_LEN,
{
    reveal_with_fuel(cap, 11);
    assert(cap(10) == 1180591620717411303424int);
    lemma_varint_len(n, 10);
}

proof fn lemma_read_varint(s: Seq<u8>, start: int, pos: int, n: u64)
    requires
        0 <= start <= pos,
        pos - start + varint(n).len() <= MAX_VARINT_LEN,
        pos + varint(n).len() <= s.len(),
        s.subrange(pos, pos + varint(n).len()) == varint(n),
        pos > start ==> n > 0,
    ensures
        read_varint(s, start, pos) == Ok::<(u64, int), int>((n, pos + varint(n).len())),
    decreases n,
{
    let v = varint(n);
    assert(s[pos] == v[0]);
    if n >= 128 {
        let rest = varint(n / 128);
        assert(v =~= seq![((n % 128) + 128) as u8] + rest);
        assert(s.subrange(pos + 1, pos + 1 + rest.len()) =~= v.subrange(1, v.len() as int));
        assert(v.subrange(1, v.len() as int) =~= rest);
        assert(n / 128 > 0) by (nonlinear_arith)
            requires n >= 128;
        lemma_read_varint(s, start, pos + 1, n / 128);
        let low = (s[pos] - 128) as u64;
        assert(low == n % 128);
        assert(n / 128 <= (u64::MAX - low) / 128 && low + 128 * (n / 128) == n) by (nonlinear_arith)
            requires low == n % 128, n <= u64::MAX;
    }
}

/// Reading the binary form of an identifier gives the identifier back.
pub proof fn lemma_decode_encoding(id: IdModel)
    requires
        id.2.len() <= u64::MAX,
    ensures
        parse_id(encoding(id)) == Ok::<IdModel, int>(id),
{
    let a = varint(CID_VERSION);
    let b = varint(id.1);
    let c = varint(id.0);
    let d = varint(id.2.len() as u64);
    lemma_varint_fits(CID_VERSION);
    lemma_varint_fits(id.1);
    lemma_varint_fits(id.0);
    lemma_varint_fits(id.2.len() as u64);
    let s = encoding(id);
    let p1 = a.len() as int;
    let p2 = p1 + b.len();
    let p3 = p2 + c.len();
    let p4 = p3 + d.len();
    assert(s.len() == p4 + id.2.len());
    assert(s.subrange(0, p1) =~= a);
    assert(s.subrange(p1, p2) =~= b);
    assert(s.subrange(p2, p3) =~= c);
    assert(s.subrange(p3, p4) =~= d);
    assert(s.subrange(p4, s.len() as int) =~= id.2);
    lemma_read_varint(s, 0, 0, CID_VERSION);
    lemma_read_varint(s, p1, p1, id.1);
    lemma_read_varint(s, p2, p2, id.0);
    lemma_read_varint(s, p3, p3, id.2.len() as u64);
}


proof fn lemma_read_varint_sound(s: Seq<u8>, start: int, pos: int)
    requires
        0 <= start,
        read_varint(s, start, pos) is Ok,
    ensures
        ({
            let (v, next) = read_varint(s, start, pos)->Ok_0;
            &&& pos < next <= s.len()
            &&& s.subrange(pos, next) == varint(v)
            &&& pos > start ==> v > 0
        }),
    decreases s.len() - pos,
{
    let (v, next) = read_varint(s, start, pos)->Ok_0;
    if s[pos] < 128 {
        assert(read_varint(s, start, pos) == Ok::<(u64, int), int>((s[pos] as u64, pos + 1)));
        assert(v == s[pos] as u64 && next == pos + 1);
        assert(varint(v) == seq![v as u8]);
        assert(s.subrange(pos, next) =~= seq![v as u8]);
    } else {
        lemma_read_varint_sound(s, start, pos + 1);
        let (w, n2) = read_varint(s, start, pos + 1)->Ok_0;
        let low = (s[pos] - 128) as u64;
        assert(read_varint(s, start, pos) == Ok::<(u64, int), int>(((low + 128 * w) as u64, n2)));
        assert(next == n2);
        assert(v == low + 128 * w);
        assert(v >= 128 && v % 128 == low && v / 128 == w) by (nonlinear_arith)
            requires v == low + 128 * w, w > 0, low < 128;
        assert(((v % 128) + 128) as u8 == s[pos]);
        assert(varint(v) == seq![((v % 128) + 128) as u8] + varint(v / 128));
        assert(s.subrange(pos, next) =~= seq![s[pos]] + s.subrange(pos + 1, next));
    }
}

/// Bytes that read as an identifier are exactly that identifier's binary form.
pub proof fn lemma_decoded_is_encoding(s: Seq<u8>)
    requires
        parse_id(s) is Ok,
    ensures
        s == encoding(parse_id(s)->Ok_0),
{
    let id = parse_id(s)->Ok_0;
    lemma_read_varint_sound(s, 0, 0);
    let (version, p1) = read_varint(s, 0, 0)->Ok_0;
    lemma_read_varint_sound(s, p1, p1);
    let (codec, p2) = read_varint(s, p1, p1)->Ok_0;
    lemma_read_varint_sound(s, p2, p2);
    let (code, p3) = read_varint(s, p2, p2)->Ok_0;
    lemma_read_varint_sound(s, p3, p3);
    let (len, p4) = read_varint(s, p3, p3)->Ok_0;
    assert(id.2.len() as u64 == len);
    assert(s =~= s.subrange(0, p1) + s.subrange(p1, p2) + s.subrange(p2, p3) + s.subrange(p3, p4) + s.subrange(
        p4,
        s.len() as int,
    ));
}

} // verus!
