//! Minimal helpers for working with gzip-wrapped streams.
//!
//! The inflater takes raw deflate data only, so the RFC 1952 gzip envelope is
//! stripped here before the body is fed to it.
use vstd::prelude::*;

verus! {

/// Header flag: an extra field follows the fixed header.
pub const FEXTRA: u8 = 0x04;

/// Header flag: a NUL-terminated file name follows.
pub const FNAME: u8 = 0x08;

/// Header flag: a NUL-terminated comment follows.
pub const FCOMMENT: u8 = 0x10;

/// Header flag: a two-byte header checksum follows.
pub const FHCRC: u8 = 0x02;

/// Length of the fixed part of the header.
pub const FIXED_LEN: usize = 10;

/// Where an extra field that starts at `p` ends: a two-byte little-endian
/// length, then as many bytes.
pub open spec fn extra_end(buf: Seq<u8>, p: int) -> Option<int> {
    if buf.len() < p + 2 {
        None
    } else {
        let end = p + 2 + buf[p] + 256 * buf[p + 1];
        if buf.len() < end {
            None
        } else {
            Some(end)
        }
    }
}

/// Where a NUL-terminated string that starts at `p` ends: just past the first
/// NUL.
pub open spec fn string_end(buf: Seq<u8>, p: int) -> Option<int>
    decreases buf.len() - p,
{
    if p < 0 || p >= buf.len() {
        None
    } else if buf[p] == 0 {
        Some(p + 1)
    } else {
        string_end(buf, p + 1)
    }
}

/// Where a header checksum that starts at `p` ends.
pub open spec fn crc_end(buf: Seq<u8>, p: int) -> Option<int> {
    if buf.len() < p + 2 {
        None
    } else {
        Some(p + 2)
    }
}

/// The optional fields in their order: the extra field ...
pub open spec fn after_extra(buf: Seq<u8>) -> Option<int> {
    if buf[3] & FEXTRA != 0 {
        extra_end(buf, FIXED_LEN as int)
    } else {
        Some(FIXED_LEN as int)
    }
}

/// ... then the file name ...
pub open spec fn after_name(buf: Seq<u8>) -> Option<int> {
    match after_extra(buf) {
        Some(p) => if buf[3] & FNAME != 0 {
            string_end(buf, p)
        } else {
            Some(p)
        },
        None => None,
    }
}

/// ... then the comment ...
pub open spec fn after_comment(buf: Seq<u8>) -> Option<int> {
    match after_name(buf) {
        Some(p) => if buf[3] & FCOMMENT != 0 {
            string_end(buf, p)
        } else {
            Some(p)
        },
        None => None,
    }
}

/// ... then the checksum.
pub open spec fn after_crc(buf: Seq<u8>) -> Option<int> {
    match after_comment(buf) {
        Some(p) => if buf[3] & FHCRC != 0 {
            crc_end(buf, p)
        } else {
            Some(p)
        },
        None => None,
    }
}

/// The buffer starts with the gzip magic number and the deflate method.
pub open spec fn has_magic(buf: Seq<u8>) -> bool {
    buf.len() >= FIXED_LEN && buf[0] == 0x1f && buf[1] == 0x8b && buf[2] == 8
}

/// The length of the gzip header at the start of `buf`, if there is a whole
/// one.
pub open spec fn header_len(buf: Seq<u8>) -> Option<int> {
    if has_magic(buf) {
        after_crc(buf)
    } else {
        None
    }
}

/// A string ends past its start and within the buffer.
proof fn lemma_string_end_bounds(buf: Seq<u8>, p: int)
    ensures
        string_end(buf, p) is Some ==> p < string_end(buf, p)->0 <= buf.len(),
    decreases buf.len() - p,
{
    if 0 <= p < buf.len() && buf[p] != 0 {
        lemma_string_end_bounds(buf, p + 1);
    }
}

/// Find the end of the NUL-terminated string that starts at `p`.
fn skip_string(buf: &[u8], p: usize) -> (r: Option<usize>)
    requires
        p <= buf@.len(),
    ensures
        match r {
            Some(end) => string_end(buf@, p as int) == Some(end as int) && end <= buf@.len(),
            None => string_end(buf@, p as int) is None,
        },
{
    let mut i: usize = p;
    while i < buf.len()
        invariant
            p <= i <= buf@.len(),
            string_end(buf@, p as int) == string_end(buf@, i as int),
        decreases buf@.len() - i,
    {
        if buf[i] == 0 {
            return Some(i + 1);
        }
        i = i + 1;
    }
    None
}

/// Skip an RFC 1952 gzip header. Returns the number of bytes consumed, or
/// `None` if the header is malformed/truncated.
pub fn skip_header(buf: &[u8]) -> (r: Option<usize>)
    ensures
        match r {
            Some(n) => header_len(buf@) == Some(n as int) && n <= buf@.len(),
            None => header_len(buf@) is None,
        },
{
    if buf.len() < FIXED_LEN || buf[0] != 0x1f || buf[1] != 0x8b || buf[2] != 8 {
        return None;
    }
    let flags: u8 = buf[3];
    let mut p: usize = FIXED_LEN;
    if flags & FEXTRA != 0 {
        if buf.len() - p < 2 {
            return None;
        }
        let xlen: usize = buf[p] as usize + 256 * buf[p + 1] as usize;
        p = p + 2;
        if buf.len() - p < xlen {
            return None;
        }
        p = p + xlen;
    }
    if flags & FNAME != 0 {
        match skip_string(buf, p) {
            Some(end) => {
                p = end;
            },
            None => {
                return None;
            },
        }
    }
    if flags & FCOMMENT != 0 {
        match skip_string(buf, p) {
            Some(end) => {
                p = end;
            },
            None => {
                return None;
            },
        }
    }
    if flags & FHCRC != 0 {
        if buf.len() - p < 2 {
            return None;
        }
        p = p + 2;
    }
    Some(p)
}

/// A header is at least its fixed part and lies within the buffer.
pub proof fn law_header_lies_in_buffer(buf: Seq<u8>)
    requires
        header_len(buf) is Some,
    ensures
        FIXED_LEN <= header_len(buf)->0 <= buf.len(),
{
    if let Some(p) = after_extra(buf) {
        lemma_string_end_bounds(buf, p);
    }
    if let Some(p) = after_name(buf) {
        lemma_string_end_bounds(buf, p);
    }
}

/// The end of a string that lies in `buf` does not depend on what follows it.
proof fn lemma_string_end_extends(buf: Seq<u8>, tail: Seq<u8>, p: int)
    requires
        string_end(buf, p) is Some,
    ensures
        string_end(buf + tail, p) == string_end(buf, p),
    decreases buf.len() - p,
{
    assert((buf + tail)[p] == buf[p]);
    if buf[p] != 0 {
        lemma_string_end_extends(buf, tail, p + 1);
    }
}

/// The length of a header does not depend on what follows it.
pub proof fn law_header_ignores_body(buf: Seq<u8>, tail: Seq<u8>)
    requires
        header_len(buf) is Some,
    ensures
        header_len(buf + tail) == header_len(buf),
{
    law_header_lies_in_buffer(buf);
    assert(forall|i: int| 0 <= i < buf.len() ==> (buf + tail)[i] == buf[i]);
    if let Some(p) = after_extra(buf) {
        lemma_string_end_bounds(buf, p);
        if buf[3] & FNAME != 0 {
            lemma_string_end_extends(buf, tail, p);
        }
    }
    if let Some(p) = after_name(buf) {
        lemma_string_end_bounds(buf, p);
        if buf[3] & FCOMMENT != 0 {
            lemma_string_end_extends(buf, tail, p);
        }
    }
}

/// A gzip header as it is written: the magic number, the method, the flags, six
/// bytes that do not matter here, then the fields that the flags announce: an
/// extra field behind its length, a name and a comment up to a NUL, a checksum.
pub open spec fn written_header(
    flags: u8,
    fixed: Seq<u8>,
    extra: Seq<u8>,
    name: Seq<u8>,
    comment: Seq<u8>,
    crc: Seq<u8>,
) -> Seq<u8> {
    seq![0x1fu8, 0x8b, 0x08, flags] + fixed + (if flags & 0x04 != 0 {
        seq![(extra.len() % 256) as u8, (extra.len() / 256) as u8] + extra
    } else {
        Seq::empty()
    }) + (if flags & 0x08 != 0 {
        name + seq![0u8]
    } else {
        Seq::empty()
    }) + (if flags & 0x10 != 0 {
        comment + seq![0u8]
    } else {
        Seq::empty()
    }) + (if flags & 0x02 != 0 {
        crc
    } else {
        Seq::empty()
    })
}

/// A string ends just past its NUL.
proof fn lemma_string_found(buf: Seq<u8>, p: int, text: Seq<u8>)
    requires
        0 <= p,
        p + text.len() < buf.len(),
        buf.subrange(p, p + text.len()) == text,
        forall|i: int| 0 <= i < text.len() ==> #[trigger] text[i] != 0,
        buf[p + text.len()] == 0,
    ensures
        string_end(buf, p) == Some(p + text.len() + 1),
    decreases text.len(),
{
    if text.len() > 0 {
        assert(buf.subrange(p, p + text.len())[0] == buf[p]);
        assert(text[0] != 0);
        let rest = text.skip(1);
        assert(buf.subrange(p + 1, p + 1 + rest.len()) =~= rest) by {
            assert forall|i: int| 0 <= i < rest.len() implies buf[p + 1 + i] == rest[i] by {
                assert(buf.subrange(p, p + text.len())[i + 1] == text[i + 1]);
            }
        }
        assert forall|i: int| 0 <= i < rest.len() implies #[trigger] rest[i] != 0 by {
            assert(rest[i] == text[i + 1]);
        }
        lemma_string_found(buf, p + 1, rest);
    }
}

/// Every header that is written is skipped to its last byte, whatever fields it
/// has, whatever is in them and whatever follows it.
pub proof fn law_header_reads_back(
    flags: u8,
    fixed: Seq<u8>,
    extra: Seq<u8>,
    name: Seq<u8>,
    comment: Seq<u8>,
    crc: Seq<u8>,
    body: Seq<u8>,
)
    requires
        fixed.len() == 6,
        extra.len() < 65536,
        crc.len() == 2,
        forall|i: int| 0 <= i < name.len() ==> #[trigger] name[i] != 0,
        forall|i: int| 0 <= i < comment.len() ==> #[trigger] comment[i] != 0,
    ensures
        ({
            let header = written_header(flags, fixed, extra, name, comment, crc);
            header_len(header + body) == Some(header.len() as int)
        }),
{
    let header = written_header(flags, fixed, extra, name, comment, crc);
    let buf = header + body;
    let start = seq![0x1fu8, 0x8b, 0x08, flags] + fixed;
    assert(start.len() == 10);
    let a: Seq<u8> = if flags & 0x04 != 0 {
        seq![(extra.len() % 256) as u8, (extra.len() / 256) as u8] + extra
    } else {
        Seq::empty()
    };
    let b: Seq<u8> = if flags & 0x08 != 0 {
        name + seq![0u8]
    } else {
        Seq::empty()
    };
    let c: Seq<u8> = if flags & 0x10 != 0 {
        comment + seq![0u8]
    } else {
        Seq::empty()
    };
    assert(buf[0] == start[0] && buf[1] == start[1] && buf[2] == start[2] && buf[3] == start[3]);
    let p: int = 10 + a.len() as int;
    if flags & 0x04 != 0 {
        assert(buf[10] == a[0] && buf[11] == a[1]);
    }
    assert(after_extra(buf) == Some(p));
    let q: int = p + b.len();
    if flags & 0x08 != 0 {
        assert(buf.subrange(p, p + name.len()) =~= name);
        assert(buf[p + name.len()] == b[name.len() as int]);
        lemma_string_found(buf, p, name);
    }
    assert(after_name(buf) == Some(q));
    let r: int = q + c.len();
    if flags & 0x10 != 0 {
        assert(buf.subrange(q, q + comment.len()) =~= comment);
        assert(buf[q + comment.len()] == c[comment.len() as int]);
        lemma_string_found(buf, q, comment);
    }
    assert(after_comment(buf) == Some(r));
}

/// A header that is cut short anywhere is refused.
pub proof fn law_truncated_header_is_refused(
    flags: u8,
    fixed: Seq<u8>,
    extra: Seq<u8>,
    name: Seq<u8>,
    comment: Seq<u8>,
    crc: Seq<u8>,
    n: int,
)
    requires
        fixed.len() == 6,
        extra.len() < 65536,
        crc.len() == 2,
        forall|i: int| 0 <= i < name.len() ==> #[trigger] name[i] != 0,
        forall|i: int| 0 <= i < comment.len() ==> #[trigger] comment[i] != 0,
        0 <= n < written_header(flags, fixed, extra, name, comment, crc).len(),
    ensures
        header_len(written_header(flags, fixed, extra, name, comment, crc).take(n)) is None,
{
    let header = written_header(flags, fixed, extra, name, comment, crc);
    let cut = header.take(n);
    law_header_reads_back(flags, fixed, extra, name, comment, crc, Seq::empty());
    assert(header + Seq::<u8>::empty() =~= header);
    if header_len(cut) is Some {
        law_header_lies_in_buffer(cut);
        law_header_ignores_body(cut, header.skip(n));
        assert(cut + header.skip(n) =~= header);
    }
}

/// What does not start with the magic number and the deflate method is refused.
pub proof fn law_other_data_is_refused(buf: Seq<u8>)
    requires
        buf.len() < 10 || buf[0] != 0x1f || buf[1] != 0x8b || buf[2] != 8,
    ensures
        header_len(buf) is None,
{
}

} // verus!
