//! Line classification helpers: timestamps and record start lines.

use vstd::prelude::*;
use crate::scan::{first_byte, find_byte, starts_with};
use vstd::string::StringSliceAdditionalSpecFns;

verus! {

broadcast use crate::scan::group_scan;

/// Length of a `YYYY-MM-DD HH:MM:SS.mmm` timestamp.
pub const TIMESTAMP_LENGTH: usize = 23;

pub open spec fn is_digit(b: u8) -> bool {
    48 <= b <= 57
}

/// `b` is a timestamp `YYYY-MM-DD HH:MM:SS.mmm` of exactly 23 bytes.
pub open spec fn spec_is_ts_millis(b: Seq<u8>) -> bool {
    &&& b.len() == 23
    &&& b[4] == 45u8 && b[7] == 45u8 && b[10] == 32u8
    &&& b[13] == 58u8 && b[16] == 58u8 && b[19] == 46u8
    &&& forall|i: int| 0 <= i < 23 && i != 4 && i != 7 && i != 10 && i != 13 && i != 16 && i != 19
        ==> #[trigger] is_digit(b[i])
}

fn digit(b: u8) -> (r: bool)
    ensures r == is_digit(b),
{
    b >= 48 && b <= 57
}

/// Whether `bytes` is a timestamp `YYYY-MM-DD HH:MM:SS.mmm` (exactly 23 bytes).
pub fn is_ts_millis_bytes(bytes: &[u8]) -> (r: bool)
    ensures r == spec_is_ts_millis(bytes@),
{
    if bytes.len() != TIMESTAMP_LENGTH {
        return false;
    }
    if !(bytes[4] == 45 && bytes[7] == 45 && bytes[10] == 32 && bytes[13] == 58
        && bytes[16] == 58 && bytes[19] == 46) {
        return false;
    }
    let mut i: usize = 0;
    while i < 23
        invariant
            bytes@.len() == 23,
            i <= 23,
            forall|j: int| 0 <= j < i && j != 4 && j != 7 && j != 10 && j != 13 && j != 16 && j != 19
                ==> #[trigger] is_digit(bytes@[j]),
        decreases 23 - i,
    {
        if i != 4 && i != 7 && i != 10 && i != 13 && i != 16 && i != 19 && !digit(bytes[i]) {
            return false;
        }
        i = i + 1;
    }
    true
}


/// Minimum length of a record start line: timestamp, space and `(`.
pub const MIN_LINE_LENGTH: usize = 25;

/// `s` begins with `p`.
pub open spec fn has_prefix(s: Seq<u8>, p: Seq<u8>) -> bool {
    p.len() <= s.len() && s.subrange(0, p.len() as int) =~= p
}

pub open spec fn pat_ep() -> Seq<u8> {
    seq![69u8, 80u8, 91u8]
}

pub open spec fn pat_sess() -> Seq<u8> {
    seq![115u8, 101u8, 115u8, 115u8, 58u8]
}

pub open spec fn pat_thrd() -> Seq<u8> {
    seq![116u8, 104u8, 114u8, 100u8, 58u8]
}

pub open spec fn pat_user() -> Seq<u8> {
    seq![117u8, 115u8, 101u8, 114u8, 58u8]
}

pub open spec fn pat_trxid() -> Seq<u8> {
    seq![116u8, 114u8, 120u8, 105u8, 100u8, 58u8]
}

/// If `m[pos..]` begins with `prefix`, the position just past the first space
/// of `m[pos..]`.
pub open spec fn meta_step(m: Seq<u8>, pos: int, prefix: Seq<u8>) -> Option<int> {
    let rest = m.subrange(pos, m.len() as int);
    if has_prefix(rest, prefix) {
        match first_byte(rest, 32u8) {
            Some(k) => Some(pos + k + 1),
            None => None,
        }
    } else {
        None
    }
}

/// The meta text holds `EP[`, `sess:`, `thrd:`, `user:` and `trxid:` fields in
/// this order, one space apart, and is at least 34 bytes long, the length of
/// `EP[0] sess:1 thrd:1 user:a trxid:1`, the shortest such meta with every
/// value present.
pub open spec fn spec_validate_meta(m: Seq<u8>) -> bool {
    m.len() >= 34 && match meta_step(m, 0, pat_ep()) {
        None => false,
        Some(p1) => match meta_step(m, p1, pat_sess()) {
            None => false,
            Some(p2) => match meta_step(m, p2, pat_thrd()) {
                None => false,
                Some(p3) => match meta_step(m, p3, pat_user()) {
                    None => false,
                    Some(p4) => has_prefix(m.subrange(p4, m.len() as int), pat_trxid()),
                },
            },
        },
    }
}

/// A record start line: a timestamp, ` (`, then meta fields (see
/// [`spec_validate_meta`]) up to the first `)`.
pub open spec fn spec_is_record_start(b: Seq<u8>) -> bool {
    &&& b.len() >= 25
    &&& spec_is_ts_millis(b.subrange(0, 23))
    &&& b[23] == 32u8
    &&& b[24] == 40u8
    &&& match first_byte(b, 41u8) {
        None => false,
        Some(c) => c >= 25 && spec_validate_meta(b.subrange(25, c)),
    }
}

fn step(m: &[u8], pos: usize, prefix: &[u8]) -> (r: Option<usize>)
    requires
        pos <= m@.len(),
    ensures
        r == match meta_step(m@, pos as int, prefix@) {
            Some(p) => Some(p as usize),
            None => None::<usize>,
        },
        r matches Some(p) ==> p <= m@.len(),
{
    let rest = &m[pos..m.len()];
    if !starts_with(rest, prefix) {
        return None;
    }
    match find_byte(32, rest) {
        Some(k) => Some(pos + k + 1),
        None => None,
    }
}

/// Checks the order and prefixes of the meta fields: `EP[` → `sess:` → `thrd:`
/// → `user:` → `trxid:`.
pub fn validate_meta_fields_fast(meta: &[u8]) -> (r: bool)
    ensures
        r == spec_validate_meta(meta@),
{
    if meta.len() < 34 {
        return false;
    }
    let ep: Vec<u8> = vec![69u8, 80, 91];
    let sess: Vec<u8> = vec![115u8, 101, 115, 115, 58];
    let thrd: Vec<u8> = vec![116u8, 104, 114, 100, 58];
    let user: Vec<u8> = vec![117u8, 115, 101, 114, 58];
    let trxid: Vec<u8> = vec![116u8, 114, 120, 105, 100, 58];
    assert(ep@ =~= pat_ep());
    assert(sess@ =~= pat_sess());
    assert(thrd@ =~= pat_thrd());
    assert(user@ =~= pat_user());
    assert(trxid@ =~= pat_trxid());
    let p1 = match step(meta, 0, ep.as_slice()) {
        Some(p) => p,
        None => return false,
    };
    let p2 = match step(meta, p1, sess.as_slice()) {
        Some(p) => p,
        None => return false,
    };
    let p3 = match step(meta, p2, thrd.as_slice()) {
        Some(p) => p,
        None => return false,
    };
    let p4 = match step(meta, p3, user.as_slice()) {
        Some(p) => p,
        None => return false,
    };
    starts_with(&meta[p4..meta.len()], trxid.as_slice())
}

/// Whether `line` starts a log record: a timestamp, ` (`, and meta fields in
/// the order `EP`, `sess`, `thrd`, `user`, `trxid`.
pub fn is_record_start_line(line: &str) -> (r: bool)
    ensures
        r == spec_is_record_start(line.spec_bytes()),
{
    let bytes = line.as_bytes();
    if bytes.len() < MIN_LINE_LENGTH {
        return false;
    }
    if !is_ts_millis_bytes(&bytes[0..TIMESTAMP_LENGTH]) {
        return false;
    }
    if bytes[23] != 32 || bytes[24] != 40 {
        return false;
    }
    let closing = match find_byte(41, bytes) {
        Some(idx) => idx,
        None => return false,
    };
    proof {
        let b = bytes@;
        assert forall|j: int| 0 <= j < 25 implies b[j] != 41u8 by {
            if j < 23 {
                assert(b.subrange(0, 23)[j] == b[j]);
                if j != 4 && j != 7 && j != 10 && j != 13 && j != 16 && j != 19 {
                    assert(is_digit(b.subrange(0, 23)[j]));
                }
            }
        }
    }
    validate_meta_fields_fast(&bytes[25..closing])
}

} // verus!
