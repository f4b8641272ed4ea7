//! Little-endian primitive reads over a byte slice, and counted tables of
//! variable-length records read back to back.
use vstd::prelude::*;

use crate::DecodeError;

verus! {

/// The little-endian 16-bit value stored at `p`.
pub open spec fn le16(d: Seq<u8>, p: int) -> int {
    d[p] as int + 256 * (d[p + 1] as int)
}

/// The little-endian 32-bit value stored at `p`.
pub open spec fn le32(d: Seq<u8>, p: int) -> int {
    le16(d, p) + 65536 * le16(d, p + 2)
}

/// Reads a little-endian `u16` at `p`.
pub fn read_u16(d: &[u8], p: usize) -> (r: Result<u16, DecodeError>)
    ensures
        r is Ok <==> p + 2 <= d@.len(),
        r matches Ok(v) ==> v as int == le16(d@, p as int),
        r matches Err(e) ==> e == DecodeError::Truncated,
{
    if p > d.len() || d.len() - p < 2 {
        return Err(DecodeError::Truncated);
    }
    let v: u16 = d[p] as u16 + 256 * (d[p + 1] as u16);
    Ok(v)
}

/// Reads a little-endian `u32` at `p`.
pub fn read_u32(d: &[u8], p: usize) -> (r: Result<u32, DecodeError>)
    ensures
        r is Ok <==> p + 4 <= d@.len(),
        r matches Ok(v) ==> v as int == le32(d@, p as int),
        r matches Err(e) ==> e == DecodeError::Truncated,
{
    if p > d.len() || d.len() - p < 4 {
        return Err(DecodeError::Truncated);
    }
    let lo = read_u16(d, p)?;
    let hi = read_u16(d, p + 2)?;
    Ok(lo as u32 + 65536 * (hi as u32))
}

/// Whether `v` holds the `n` little-endian `u16` values stored from `p` on.
pub open spec fn u16s_at(v: Seq<u16>, d: Seq<u8>, p: int, n: int) -> bool {
    &&& v.len() == n
    &&& forall|i: int| 0 <= i < n ==> #[trigger] v[i] as int == le16(d, p + 2 * i)
}

/// Reads `n` little-endian `u16` values stored back to back from `p` on.
pub fn read_u16s(d: &[u8], p: usize, n: usize) -> (r: Result<Vec<u16>, DecodeError>)
    ensures
        r is Ok <==> p + 2 * n <= d@.len(),
        r matches Ok(v) ==> u16s_at(v@, d@, p as int, n as int),
        r matches Err(e) ==> e == DecodeError::Truncated,
{
    if p > d.len() || (d.len() - p) / 2 < n {
        return Err(DecodeError::Truncated);
    }
    let len = d.len();
    let mut v: Vec<u16> = Vec::new();
    let mut i: usize = 0;
    while i < n
        invariant
            i <= n,
            len == d@.len(),
            p + 2 * n <= d@.len(),
            u16s_at(v@, d@, p as int, i as int),
        decreases n - i,
    {
        let x = read_u16(d, p + 2 * i)?;
        v.push(x);
        i = i + 1;
    }
    Ok(v)
}

/// Reads the `n` bytes stored from `p` on.
pub fn read_bytes(d: &[u8], p: usize, n: usize) -> (r: Result<Vec<u8>, DecodeError>)
    ensures
        r is Ok <==> p + n <= d@.len(),
        r matches Ok(v) ==> v@ == d@.subrange(p as int, p + n),
        r matches Err(e) ==> e == DecodeError::Truncated,
{
    if p > d.len() || d.len() - p < n {
        return Err(DecodeError::Truncated);
    }
    let len = d.len();
    let mut v: Vec<u8> = Vec::new();
    let mut i: usize = 0;
    while i < n
        invariant
            i <= n,
            len == d@.len(),
            p + n <= d@.len(),
            v@ == d@.subrange(p as int, p + i),
        decreases n - i,
    {
        v.push(d[p + i]);
        i = i + 1;
        assert(v@ =~= d@.subrange(p as int, p + i));
    }
    Ok(v)
}

/// A record of the manifest format, decoded at a byte position with the
/// context `Args` that its derived fields are resolved against.
pub trait Record: Sized {
    type Args;

    /// Whether a record can be decoded at `p`.
    spec fn fits(d: Seq<u8>, p: int) -> bool;

    /// The position just after a record decoded at `p`.
    spec fn end(d: Seq<u8>, p: int) -> int;

    /// Whether `self` is what decoding at `p` against `a` gives.
    spec fn decoded_from(&self, d: Seq<u8>, p: int, a: &Self::Args) -> bool;

    fn read_at(d: &[u8], p: usize, a: &Self::Args) -> (r: Result<(Self, usize), DecodeError>)
        requires
            d@.len() + 0x10000 <= usize::MAX,
            p <= d@.len() + 0x10000,
        ensures
            r is Ok <==> Self::fits(d@, p as int),
            r matches Ok((v, e)) ==> {
                &&& e as int == Self::end(d@, p as int)
                &&& e <= d@.len() + 0x10000
                &&& v.decoded_from(d@, p as int, a)
            },
            r matches Err(e) ==> e == DecodeError::Truncated,
    ;
}

/// Where the `i`-th record of a table that starts at `p` starts.
pub open spec fn table_pos<R: Record>(d: Seq<u8>, p: int, i: nat) -> int
    decreases i,
{
    if i == 0 {
        p
    } else {
        R::end(d, table_pos::<R>(d, p, (i - 1) as nat))
    }
}

/// Whether a table of `n` records can be decoded from `p` on.
pub open spec fn table_fits<R: Record>(d: Seq<u8>, p: int, n: nat) -> bool
    decreases n,
{
    n == 0 || (table_fits::<R>(d, p, (n - 1) as nat) && R::fits(d, table_pos::<R>(d, p, (n - 1) as nat)))
}

/// Whether `rs` is the table decoded from `p` on.
pub open spec fn table_decoded<R: Record>(rs: Seq<R>, d: Seq<u8>, p: int, a: &R::Args) -> bool {
    forall|i: int| 0 <= i < rs.len() ==> #[trigger] rs[i].decoded_from(d, table_pos::<R>(d, p, i as nat), a)
}

/// Reads `n` records stored back to back from `p` on.
pub fn read_table<R: Record>(d: &[u8], p: usize, n: usize, a: &R::Args) -> (r: Result<(Vec<R>, usize), DecodeError>)
    requires
        d@.len() + 0x10000 <= usize::MAX,
        p <= d@.len() + 0x10000,
    ensures
        r is Ok <==> table_fits::<R>(d@, p as int, n as nat),
        r matches Ok((v, e)) ==> {
            &&& v@.len() == n
            &&& e as int == table_pos::<R>(d@, p as int, n as nat)
            &&& e <= d@.len() + 0x10000
            &&& table_decoded(v@, d@, p as int, a)
        },
        r matches Err(e) ==> e == DecodeError::Truncated,
{
    let mut v: Vec<R> = Vec::new();
    let mut pos = p;
    let mut i: usize = 0;
    while i < n
        invariant
            i <= n,
            d@.len() + 0x10000 <= usize::MAX,
            pos <= d@.len() + 0x10000,
            v@.len() == i,
            pos as int == table_pos::<R>(d@, p as int, i as nat),
            table_fits::<R>(d@, p as int, i as nat),
            table_decoded(v@, d@, p as int, a),
        decreases n - i,
    {
        match R::read_at(d, pos, a) {
            Ok((x, e)) => {
                let ghost v0 = v@;
                v.push(x);
                pos = e;
                i = i + 1;
                assert(table_decoded(v@, d@, p as int, a)) by {
                    assert forall|j: int| 0 <= j < v@.len() implies #[trigger] v@[j].decoded_from(
                        d@,
                        table_pos::<R>(d@, p as int, j as nat),
                        a,
                    ) by {
                        if j < i - 1 {
                            assert(v@[j] == v0[j]);
                        }
                    }
                }
            },
            Err(e) => {
                proof {
                    if table_fits::<R>(d@, p as int, n as nat) {
                        lemma_table_fits_prefix::<R>(d@, p as int, i as nat, n as nat);
                    }
                }
                return Err(e);
            },
        }
    }
    Ok((v, pos))
}

/// The `i`-th record of a decoded table was decoded where the table puts it.
pub proof fn lemma_table_nth<R: Record>(rs: Seq<R>, d: Seq<u8>, p: int, a: &R::Args, i: int)
    requires
        table_decoded(rs, d, p, a),
        0 <= i < rs.len(),
    ensures
        rs[i].decoded_from(d, table_pos::<R>(d, p, i as nat), a),
{
}

/// A table that fits also fits when cut short, and each of its records fits.
proof fn lemma_table_fits_prefix<R: Record>(d: Seq<u8>, p: int, i: nat, n: nat)
    requires
        i < n,
        table_fits::<R>(d, p, n),
    ensures
        table_fits::<R>(d, p, i),
        R::fits(d, table_pos::<R>(d, p, i)),
    decreases n - i,
{
    if i + 1 < n {
        lemma_table_fits_prefix::<R>(d, p, (i + 1) as nat, n);
    }
}

} // verus!
