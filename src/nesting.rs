use vstd::prelude::*;

verus! {

/// The deepest nesting of lists and dictionaries that a metadata file may
/// have. Real metadata files nest a handful of levels deep.
pub const MAX_NESTING: u64 = 64;

/// The longest string payload that a metadata file may announce.
pub const MAX_STRING_LEN: u64 = 4294967296;

/// Where a scan of bencoded bytes stands: at the start of an element, inside
/// an integer, reading a string's length, or inside a string's payload
/// (with that many bytes left); each with the current nesting depth.
/// `Rejected` is final.
#[derive(Debug, Clone, Copy, PartialEq, Eq, Structural)]
pub enum ScanState {
    Element(u64),
    Integer(u64),
    Length(u64, u64),
    Payload(u64, u64),
    Rejected,
}

pub open spec fn is_digit(c: u8) -> bool {
    48 <= c <= 57
}

/// One byte of the scan. Lists (`l`) and dictionaries (`d`) open a level,
/// `e` closes one, `i` starts an integer that runs to the next `e`, and a
/// decimal length followed by `:` announces that many payload bytes, which
/// are skipped. Anything else at the start of an element, a level beyond
/// `MAX_NESTING`, a close at level zero, or a length beyond `MAX_STRING_LEN`
/// rejects.
pub open spec fn scan_step(s: ScanState, c: u8) -> ScanState {
    match s {
        ScanState::Element(d) => if c == 108 || c == 100 {
            if d >= MAX_NESTING {
                ScanState::Rejected
            } else {
                ScanState::Element((d + 1) as u64)
            }
        } else if c == 101 {
            if d == 0 {
                ScanState::Rejected
            } else {
                ScanState::Element((d - 1) as u64)
            }
        } else if c == 105 {
            ScanState::Integer(d)
        } else if is_digit(c) {
            ScanState::Length(d, (c - 48) as u64)
        } else {
            ScanState::Rejected
        },
        ScanState::Integer(d) => if c == 101 {
            ScanState::Element(d)
        } else {
            ScanState::Integer(d)
        },
        ScanState::Length(d, n) => if c == 58 {
            if n == 0 {
                ScanState::Element(d)
            } else {
                ScanState::Payload(d, n)
            }
        } else if is_digit(c) && n * 10 + (c - 48) <= MAX_STRING_LEN {
            ScanState::Length(d, (n * 10 + (c - 48)) as u64)
        } else {
            ScanState::Rejected
        },
        ScanState::Payload(d, k) => if k <= 1 {
            ScanState::Element(d)
        } else {
            ScanState::Payload(d, (k - 1) as u64)
        },
        ScanState::Rejected => ScanState::Rejected,
    }
}

/// The scan's state after the bytes `b`, from the start of an element at
/// level zero.
pub open spec fn scan(b: Seq<u8>) -> ScanState
    decreases b.len(),
{
    if b.len() == 0 {
        ScanState::Element(0)
    } else {
        scan_step(scan(b.drop_last()), b.last())
    }
}

/// The bytes nest lists and dictionaries at most `MAX_NESTING` deep, read
/// as bencode with string payloads skipped.
pub open spec fn nesting_within_limit(b: Seq<u8>) -> bool {
    scan(b) != ScanState::Rejected
}

fn step(s: ScanState, c: u8) -> (r: ScanState)
    ensures
        r == scan_step(s, c),
{
    match s {
        ScanState::Element(d) => if c == 108 || c == 100 {
            if d >= MAX_NESTING {
                ScanState::Rejected
            } else {
                ScanState::Element(d + 1)
            }
        } else if c == 101 {
            if d == 0 {
                ScanState::Rejected
            } else {
                ScanState::Element(d - 1)
            }
        } else if c == 105 {
            ScanState::Integer(d)
        } else if 48 <= c && c <= 57 {
            ScanState::Length(d, (c - 48) as u64)
        } else {
            ScanState::Rejected
        },
        ScanState::Integer(d) => if c == 101 {
            ScanState::Element(d)
        } else {
            ScanState::Integer(d)
        },
        ScanState::Length(d, n) => if c == 58 {
            if n == 0 {
                ScanState::Element(d)
            } else {
                ScanState::Payload(d, n)
            }
        } else if 48 <= c && c <= 57 && n <= (MAX_STRING_LEN - (c - 48) as u64) / 10 {
            assert(n * 10 + (c - 48) <= MAX_STRING_LEN) by (nonlinear_arith)
                requires
                    n <= (MAX_STRING_LEN - (c - 48) as u64) / 10,
                    48 <= c <= 57,
            ;
            ScanState::Length(d, n * 10 + (c - 48) as u64)
        } else {
            proof {
                if 48 <= c <= 57 {
                    assert(n * 10 + (c - 48) > MAX_STRING_LEN) by (nonlinear_arith)
                        requires
                            n > (MAX_STRING_LEN - (c - 48) as u64) / 10,
                            48 <= c <= 57,
                    ;
                }
            }
            ScanState::Rejected
        },
        ScanState::Payload(d, k) => if k <= 1 {
            ScanState::Element(d)
        } else {
            ScanState::Payload(d, k - 1)
        },
        ScanState::Rejected => ScanState::Rejected,
    }
}

/// Whether the bytes nest within `MAX_NESTING`, by one pass over them.
pub fn check_nesting(b: &[u8]) -> (r: bool)
    ensures
        r == nesting_within_limit(b@),
{
    let mut s = ScanState::Element(0);
    let mut i: usize = 0;
    while i < b.len()
        invariant
            i <= b@.len(),
            s == scan(b@.take(i as int)),
        decreases b@.len() - i,
    {
        assert(b@.take(i + 1).drop_last() =~= b@.take(i as int));
        s = step(s, b[i]);
        i = i + 1;
    }
    assert(b@.take(i as int) =~= b@);
    s != ScanState::Rejected
}

} // verus!
