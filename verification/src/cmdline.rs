//! The boot helper's parsing core: find the `composefs=` token on a kernel
//! command line and decode its 64 hex digits into a 32-byte digest.

use vstd::prelude::*;

verus! {

/// Errors of the command-line digest lookup.
#[derive(Clone, Copy, Debug, PartialEq, Eq, Structural)]
pub enum CmdlineError {
    /// No whitespace-delimited `composefs=` token is present.
    Missing,
    /// The token's value is not 64 hex digits.
    BadDigest,
}

/// The outcome of a refused hex decode, mirroring the decoder's own error
/// cases.
#[derive(Clone, Copy, Debug, PartialEq, Eq, Structural)]
pub enum HexError {
    InvalidHexCharacter,
    OddLength,
    InvalidStringLength,
}

/// An ASCII hex digit, either case.
pub open spec fn is_hex_digit(b: u8) -> bool {
    (48 <= b <= 57) || (97 <= b <= 102) || (65 <= b <= 70)
}

/// The value of an ASCII hex digit.
pub open spec fn hex_val(b: u8) -> int {
    if 48 <= b <= 57 {
        b - 48
    } else if 97 <= b <= 102 {
        b - 87
    } else if 65 <= b <= 70 {
        b - 55
    } else {
        0
    }
}

/// The bytes an even-length hex string decodes to, two digits per byte.
pub open spec fn spec_hex_decode(s: Seq<u8>) -> Seq<u8> {
    Seq::new((s.len() / 2) as nat, |i: int| (hex_val(s[2 * i]) * 16 + hex_val(s[2 * i + 1])) as u8)
}

/// Relies on hex::decode: an even-length string of hex digits (either
/// case) decodes to its byte pairs; an odd length is refused first, then
/// any non-digit.
#[verifier::external_body]
fn hex_decode(data: &[u8]) -> (r: Result<Vec<u8>, HexError>)
    ensures
        match r {
            Ok(v) => data@.len() % 2 == 0 && (forall|i: int|
                0 <= i < data@.len() ==> is_hex_digit(data@[i])) && v@ == spec_hex_decode(data@),
            Err(e) => !(data@.len() % 2 == 0 && (forall|i: int|
                0 <= i < data@.len() ==> is_hex_digit(data@[i]))) && (e == HexError::OddLength
                <==> data@.len() % 2 != 0),
        },
{
    match hex::decode(data) {
        Ok(v) => Ok(v),
        Err(hex::FromHexError::InvalidHexCharacter { c: _, index: _ }) => Err(
            HexError::InvalidHexCharacter,
        ),
        Err(hex::FromHexError::OddLength) => Err(HexError::OddLength),
        Err(hex::FromHexError::InvalidStringLength) => Err(HexError::InvalidStringLength),
    }
}

/// An ASCII whitespace byte, as the kernel command line is split.
pub open spec fn is_space(b: u8) -> bool {
    b == 32 || b == 9 || b == 10 || b == 12 || b == 13
}

/// The nonempty whitespace-separated tokens of a byte string.
pub open spec fn split_tokens(p: Seq<u8>) -> Seq<Seq<u8>>
    decreases p.len(),
{
    if p.len() == 0 {
        Seq::empty()
    } else {
        let rest = split_tokens(p.drop_last());
        let c = p.last();
        if is_space(c) {
            rest
        } else if p.len() >= 2 && !is_space(p[p.len() - 2]) {
            rest.update(rest.len() - 1, rest.last().push(c))
        } else {
            rest.push(seq![c])
        }
    }
}

/// Split a byte string into its nonempty whitespace-separated tokens.
pub fn tokenize(p: &[u8]) -> (r: Vec<Vec<u8>>)
    ensures
        crate::image::segs_view(r@) == split_tokens(p@),
{
    let mut toks: Vec<Vec<u8>> = Vec::new();
    let mut cur: Vec<u8> = Vec::new();
    let mut i: usize = 0;
    while i < p.len()
        invariant
            0 <= i <= p@.len(),
            cur@.len() > 0 <==> (i > 0 && !is_space(p@[i as int - 1])),
            split_tokens(p@.take(i as int)) == (if cur@.len() == 0 {
                crate::image::segs_view(toks@)
            } else {
                crate::image::segs_view(toks@).push(cur@)
            }),
        decreases p@.len() - i,
    {
        let ghost pre = split_tokens(p@.take(i as int));
        let c = p[i];
        proof {
            assert(p@.take(i as int + 1).drop_last() =~= p@.take(i as int));
            assert(p@.take(i as int + 1).last() == p@[i as int]);
        }
        let space = c == 32 || c == 9 || c == 10 || c == 12 || c == 13;
        if space {
            if cur.len() > 0 {
                toks.push(cur);
                cur = Vec::new();
                proof {
                    assert(crate::image::segs_view(toks@) =~= pre);
                }
            }
        } else {
            if cur.len() > 0 {
                cur.push(c);
                proof {
                    let post = split_tokens(p@.take(i as int + 1));
                    assert(post == pre.update(pre.len() - 1, pre.last().push(c)));
                    assert(post =~= crate::image::segs_view(toks@).push(cur@));
                }
            } else {
                cur.push(c);
                proof {
                    let post = split_tokens(p@.take(i as int + 1));
                    assert(post == pre.push(seq![c]));
                    assert(cur@ =~= seq![c]);
                    assert(post =~= crate::image::segs_view(toks@).push(cur@));
                }
            }
        }
        i = i + 1;
    }
    proof {
        assert(p@.take(p@.len() as int) =~= p@);
    }
    if cur.len() > 0 {
        toks.push(cur);
        proof {
            assert(crate::image::segs_view(toks@) =~= split_tokens(p@));
        }
    }
    proof {
        assert(crate::image::segs_view(toks@) =~= split_tokens(p@));
    }
    toks
}

/// The `composefs=` token prefix.
pub open spec fn cfs_prefix() -> Seq<u8> {
    seq![99u8, 111u8, 109u8, 112u8, 111u8, 115u8, 101u8, 102u8, 115u8, 61u8]
}

/// The digest text of the first token carrying the `composefs=` prefix, if
/// any, searching from token `i` on.
pub open spec fn find_cfs_token(toks: Seq<Seq<u8>>, i: int) -> Option<Seq<u8>>
    decreases toks.len() - i,
{
    if i < 0 || i >= toks.len() {
        None
    } else if toks[i].len() >= 10 && toks[i].subrange(0, 10) == cfs_prefix() {
        Some(toks[i].subrange(10, toks[i].len() as int))
    } else {
        find_cfs_token(toks, i + 1)
    }
}

/// What the command-line lookup must return: the decoded digest of the
/// first `composefs=` token, `Missing` without one, `BadDigest` when the
/// value is not 64 hex digits.
pub open spec fn spec_parse_cmdline(p: Seq<u8>) -> Result<Seq<u8>, CmdlineError> {
    match find_cfs_token(split_tokens(p), 0) {
        None => Err(CmdlineError::Missing),
        Some(d) => if d.len() == 64 && (forall|i: int| 0 <= i < d.len() ==> is_hex_digit(d[i])) {
            Ok(spec_hex_decode(d))
        } else {
            Err(CmdlineError::BadDigest)
        },
    }
}

/// Find the whitespace-delimited `composefs=<64 hex digits>` token of a
/// kernel command line and decode its digest.
pub fn parse_composefs_cmdline(cmdline: &[u8]) -> (r: Result<Vec<u8>, CmdlineError>)
    ensures
        match spec_parse_cmdline(cmdline@) {
            Ok(d) => r is Ok && r->Ok_0@ == d && d.len() == 32,
            Err(e) => r == Err::<Vec<u8>, CmdlineError>(e),
        },
{
    let toks = tokenize(cmdline);
    let ghost tv = crate::image::segs_view(toks@);
    let mut i: usize = 0;
    while i < toks.len()
        invariant
            0 <= i <= toks@.len(),
            tv == crate::image::segs_view(toks@),
            tv == split_tokens(cmdline@),
            find_cfs_token(tv, 0) == find_cfs_token(tv, i as int),
        decreases toks@.len() - i,
    {
        let t = &toks[i];
        let matches_prefix = if t.len() >= 10 {
            match crate::image::name_cmp(
                vstd::slice::slice_subrange(t.as_slice(), 0, 10),
                &[99, 111, 109, 112, 111, 115, 101, 102, 115, 61],
            ) {
                crate::image::NameOrder::Equal => true,
                _ => false,
            }
        } else {
            false
        };
        proof {
            assert(tv[i as int] =~= t@);
        }
        if matches_prefix {
            let digest = vstd::slice::slice_subrange(t.as_slice(), 10, t.len());
            proof {
                assert(find_cfs_token(tv, i as int) == Some(tv[i as int].subrange(
                    10,
                    tv[i as int].len() as int,
                )));
                assert(digest@ =~= tv[i as int].subrange(10, tv[i as int].len() as int));
            }
            if digest.len() != 64 {
                return Err(CmdlineError::BadDigest);
            }
            match hex_decode(digest) {
                Ok(v) => {
                    proof {
                        assert(v@.len() == 32);
                    }
                    return Ok(v);
                },
                Err(_) => {
                    return Err(CmdlineError::BadDigest);
                },
            }
        }
        proof {
            assert(!(tv[i as int].len() >= 10 && tv[i as int].subrange(0, 10) == cfs_prefix()));
        }
        i = i + 1;
    }
    Err(CmdlineError::Missing)
}

} // verus!
