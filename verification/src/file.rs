//! The on-disk layout of a source table.
//!
//! A file is a fixed 1024-byte header block — a little-endian version
//! number followed by zero padding — and a version-specific body. The
//! current body holds the entry count and then, in ascending address
//! order, each cell's column, row, text byte length (all little-endian
//! 64-bit) and UTF-8 text. The format is stable across runs and
//! endian-independent; loading a saved table gives the table back.

use vstd::bytes::lemma_auto_spec_u64_to_from_le_bytes;
use vstd::bytes::spec_u64_from_le_bytes;
use vstd::bytes::spec_u64_to_le_bytes;
use vstd::bytes::u64_from_le_bytes;
use vstd::bytes::u64_to_le_bytes;
use vstd::prelude::*;
use vstd::slice::slice_subrange;
use vstd::slice::slice_to_vec;
use vstd::utf8::decode_utf8;
use vstd::utf8::encode_utf8;
use vstd::utf8::encode_utf8_decode_utf8;
use vstd::utf8::encode_utf8_valid_utf8;
use vstd::utf8::valid_utf8;

use crate::engine::SourceTable;
use crate::engine::KEY_BOUND;
use crate::ext::string_from_utf8;
use crate::map::AddrMap;

verus! {

/// The version field carried at the start of every file.
#[derive(Clone, Copy, Debug, PartialEq, Eq, Structural)]
pub struct BightHeader {
    pub version: u64,
}

/// The one body layout currently understood.
pub const FORMAT_V1: u64 = 1;

/// Size of the header block in bytes.
pub const HEADER_LEN: usize = 1024;

/// Why a file could not be read back.
#[derive(Clone, Copy, Debug, PartialEq, Eq, Structural)]
pub enum FileLoadError {
    /// Shorter than the header block.
    MalformedHeader,
    /// The header names a version this reader does not know.
    UnsupportedVersion(u64),
    /// The body does not decode.
    Malformed,
}

/// `n` zero bytes.
pub open spec fn zero_bytes(n: int) -> Seq<u8>
    decreases n,
{
    if n <= 0 {
        Seq::empty()
    } else {
        zero_bytes(n - 1).push(0u8)
    }
}

/// One entry on disk: column, row, byte length, UTF-8 text.
pub open spec fn enc_entry(k: u64, s: Seq<char>) -> Seq<u8> {
    spec_u64_to_le_bytes(k / 0x4000_0000u64) + spec_u64_to_le_bytes(k % 0x4000_0000u64)
        + spec_u64_to_le_bytes((encode_utf8(s).len() as u64)) + encode_utf8(s)
}

/// The entries of a table, in key order, as (key, text) pairs.
pub open spec fn table_entries(t: SourceTable) -> Seq<(u64, Seq<char>)> {
    Seq::new(t.key_seq().len(), |i: int| (t.key_seq()[i], t@[t.key_seq()[i]]@))
}

/// The encoded run of entries from position `i` on.
pub open spec fn entries_bytes(es: Seq<(u64, Seq<char>)>, i: int) -> Seq<u8>
    decreases es.len() - i,
{
    if i < 0 || i >= es.len() {
        Seq::empty()
    } else {
        enc_entry(es[i].0, es[i].1) + entries_bytes(es, i + 1)
    }
}

/// The whole file: header block, count, entries.
pub open spec fn save_spec(t: SourceTable) -> Seq<u8> {
    spec_u64_to_le_bytes(FORMAT_V1) + zero_bytes(HEADER_LEN - 8) + spec_u64_to_le_bytes(
        t.key_seq().len() as u64,
    ) + entries_bytes(table_entries(t), 0)
}

/// Spec-level parse of `cnt` entries; `None` where the bytes do not carry
/// exactly that many well-formed entries.
pub open spec fn parse_entries(b: Seq<u8>, cnt: nat) -> Option<Seq<(u64, Seq<char>)>>
    decreases cnt,
{
    if cnt == 0 {
        if b.len() == 0 {
            Some(Seq::empty())
        } else {
            None
        }
    } else if b.len() < 24 {
        None
    } else {
        let x = spec_u64_from_le_bytes(b.subrange(0, 8));
        let y = spec_u64_from_le_bytes(b.subrange(8, 16));
        let l = spec_u64_from_le_bytes(b.subrange(16, 24));
        if x >= 0x4000_0000u64 || y >= 0x4000_0000u64 || b.len() - 24 < l {
            None
        } else {
            let sb = b.subrange(24, 24 + l);
            if !valid_utf8(sb) {
                None
            } else {
                match parse_entries(b.subrange(24 + l, b.len() as int), (cnt - 1) as nat) {
                    Some(rest) => Some(
                        Seq::empty().push(
                            ((x * 0x4000_0000u64 + y) as u64, decode_utf8(sb)),
                        ) + rest,
                    ),
                    None => None,
                }
            }
        }
    }
}

/// The table the parsed entries stand for: later entries win.
pub open spec fn entries_map(es: Seq<(u64, Seq<char>)>) -> Map<u64, Seq<char>>
    decreases es.len(),
{
    if es.len() == 0 {
        Map::empty()
    } else {
        entries_map(es.drop_last()).insert(es.last().0, es.last().1)
    }
}

/// Appends `n` zero bytes.
fn push_zeros(out: &mut Vec<u8>, n: usize)
    ensures
        final(out)@ == old(out)@ + zero_bytes(n as int),
{
    let mut i: usize = 0;
    while i < n
        invariant
            i <= n,
            out@ == old(out)@ + zero_bytes(i as int),
        decreases n - i,
    {
        out.push(0u8);
        proof {
            assert(out@ =~= old(out)@ + zero_bytes(i + 1 as int));
        }
        i = i + 1;
    }
    proof {
        assert(zero_bytes(0) =~= Seq::<u8>::empty());
        assert(old(out)@ + zero_bytes(0) =~= old(out)@);
    }
}

/// Serializes the table into the versioned on-disk form.
pub fn save(table: &SourceTable) -> (r: Vec<u8>)
    requires
        table.wf(),
        forall|k: u64| #[trigger] table@.dom().contains(k) ==> k < KEY_BOUND,
        table.key_seq().len() < 0x1_0000_0000u64,
    ensures
        r@ == save_spec(*table),
{
    let mut out: Vec<u8> = Vec::new();
    let header = BightHeader { version: FORMAT_V1 };
    let vb: Vec<u8> = u64_to_le_bytes(header.version);
    out.extend_from_slice(vb.as_slice());
    push_zeros(&mut out, HEADER_LEN - 8);
    let n: usize = table.len();
    let cb: Vec<u8> = u64_to_le_bytes(n as u64);
    out.extend_from_slice(cb.as_slice());
    let ghost es = table_entries(*table);
    let ghost head = out@;
    let mut i: usize = 0;
    while i < n
        invariant
            n == table.key_seq().len(),
            i <= n,
            table.wf(),
            forall|k: u64| #[trigger] table@.dom().contains(k) ==> k < KEY_BOUND,
            es == table_entries(*table),
            head == spec_u64_to_le_bytes(FORMAT_V1) + zero_bytes(HEADER_LEN - 8)
                + spec_u64_to_le_bytes(n as u64),
            out@ == head + entries_prefix(es, i as int),
        decreases n - i,
    {
        let k: u64 = table.key_at(i);
        let s: &String = table.val_at(i);
        let x: u64 = k / 0x4000_0000u64;
        let y: u64 = k % 0x4000_0000u64;
        let xb: Vec<u8> = u64_to_le_bytes(x);
        out.extend_from_slice(xb.as_slice());
        let yb: Vec<u8> = u64_to_le_bytes(y);
        out.extend_from_slice(yb.as_slice());
        let sb: &[u8] = s.as_str().as_bytes();
        let lb: Vec<u8> = u64_to_le_bytes(sb.len() as u64);
        out.extend_from_slice(lb.as_slice());
        out.extend_from_slice(sb);
        proof {
            assert(es[i as int].0 == k && es[i as int].1 == s@);
            assert(out@ =~= head + (entries_prefix(es, i as int) + enc_entry(k, s@)));
            lemma_entries_prefix_step(es, i as int);
            assert(out@ =~= head + entries_prefix(es, i + 1 as int));
        }
        i = i + 1;
    }
    proof {
        assert(entries_prefix(es, 0) =~= Seq::<u8>::empty());
        assert(head + entries_prefix(es, 0) =~= head);
        lemma_prefix_is_all(es, n as int);
        assert(out@ =~= save_spec(*table));
    }
    out
}

/// The encoded run of entries before position `i`.
pub open spec fn entries_prefix(es: Seq<(u64, Seq<char>)>, i: int) -> Seq<u8>
    decreases i,
{
    if i <= 0 || i > es.len() {
        Seq::empty()
    } else {
        entries_prefix(es, i - 1) + enc_entry(es[i - 1].0, es[i - 1].1)
    }
}

proof fn lemma_entries_prefix_step(es: Seq<(u64, Seq<char>)>, i: int)
    requires
        0 <= i < es.len(),
    ensures
        entries_prefix(es, i + 1) == entries_prefix(es, i) + enc_entry(es[i].0, es[i].1),
{
}

/// The full prefix equals the suffix encoding from the start.
proof fn lemma_prefix_is_all(es: Seq<(u64, Seq<char>)>, n: int)
    requires
        n == es.len(),
    ensures
        entries_prefix(es, n) == entries_bytes(es, 0),
{
    lemma_prefix_suffix(es, 0);
}

/// Joins a parsed prefix with the outcome of parsing the rest.
pub open spec fn opt_concat(
    pre: Seq<(u64, Seq<char>)>,
    rest: Option<Seq<(u64, Seq<char>)>>,
) -> Option<Seq<(u64, Seq<char>)>> {
    match rest {
        Some(es) => Some(pre + es),
        None => None,
    }
}

/// Reads a table back from the versioned on-disk form. An empty file is an
/// empty table; a file shorter than the header block is malformed; an
/// unknown version is reported as such; otherwise the body must parse
/// entry by entry.
pub fn load(bytes: &[u8]) -> (r: Result<SourceTable, FileLoadError>)
    ensures
        bytes@.len() == 0 ==> (r matches Ok(t) && t.wf() && t@ == Map::<u64, String>::empty()),
        0 < bytes@.len() < HEADER_LEN ==> r == Err::<SourceTable, FileLoadError>(
            FileLoadError::MalformedHeader,
        ),
        bytes@.len() >= HEADER_LEN && spec_u64_from_le_bytes(bytes@.subrange(0, 8)) != FORMAT_V1
            ==> r == Err::<SourceTable, FileLoadError>(
            FileLoadError::UnsupportedVersion(spec_u64_from_le_bytes(bytes@.subrange(0, 8))),
        ),
        bytes@.len() >= HEADER_LEN && spec_u64_from_le_bytes(bytes@.subrange(0, 8)) == FORMAT_V1
            ==> ({
            let body = bytes@.subrange(HEADER_LEN as int, bytes@.len() as int);
            if body.len() < 8 {
                r == Err::<SourceTable, FileLoadError>(FileLoadError::Malformed)
            } else {
                match parse_entries(
                    body.subrange(8, body.len() as int),
                    spec_u64_from_le_bytes(body.subrange(0, 8)) as nat,
                ) {
                    Some(es) => r matches Ok(t) && t.wf() && t@.map_values(|s: String| s@)
                        == entries_map(es) && (forall|k: u64| #[trigger]
                        t@.dom().contains(k) ==> k < KEY_BOUND),
                    None => r == Err::<SourceTable, FileLoadError>(FileLoadError::Malformed),
                }
            }
        }),
{
    let n: usize = bytes.len();
    if n == 0 {
        let t: SourceTable = AddrMap::new();
        proof {
            assert(t@.map_values(|s: String| s@) =~= Map::<u64, Seq<char>>::empty());
            assert(t@ =~= Map::<u64, String>::empty());
        }
        return Ok(t);
    }
    if n < HEADER_LEN {
        return Err(FileLoadError::MalformedHeader);
    }
    let ver: u64 = u64_from_le_bytes(slice_subrange(bytes, 0, 8));
    if ver != FORMAT_V1 {
        return Err(FileLoadError::UnsupportedVersion(ver));
    }
    let ghost body = bytes@.subrange(HEADER_LEN as int, bytes@.len() as int);
    if n - HEADER_LEN < 8 {
        return Err(FileLoadError::Malformed);
    }
    let cnt: u64 = u64_from_le_bytes(slice_subrange(bytes, HEADER_LEN, HEADER_LEN + 8));
    proof {
        assert(bytes@.subrange(HEADER_LEN as int, HEADER_LEN + 8 as int) =~= body.subrange(0, 8));
    }
    let mut t: SourceTable = AddrMap::new();
    let mut off: usize = HEADER_LEN + 8;
    let mut left: u64 = cnt;
    let ghost done: Seq<(u64, Seq<char>)> = Seq::empty();
    let ghost all = body.subrange(8, body.len() as int);
    proof {
        assert(bytes@.subrange(off as int, n as int) =~= all);
        assert(opt_concat(done, parse_entries(all, cnt as nat)) == parse_entries(all, cnt as nat));
        assert(t@.map_values(|s: String| s@) =~= entries_map(done));
    }
    let mut gdone: Ghost<Seq<(u64, Seq<char>)>> = Ghost(done);
    while left > 0
        invariant
            n == bytes@.len(),
            n >= HEADER_LEN + 8,
            HEADER_LEN + 8 <= off <= n,
            all == body.subrange(8, body.len() as int),
            body == bytes@.subrange(HEADER_LEN as int, bytes@.len() as int),
            spec_u64_from_le_bytes(bytes@.subrange(0, 8)) == FORMAT_V1,
            body.len() >= 8,
            cnt == spec_u64_from_le_bytes(body.subrange(0, 8)),
            t.wf(),
            forall|k: u64| #[trigger] t@.dom().contains(k) ==> k < KEY_BOUND,
            t@.map_values(|s: String| s@) == entries_map(gdone@),
            opt_concat(
                gdone@,
                parse_entries(bytes@.subrange(off as int, n as int), left as nat),
            ) == parse_entries(all, cnt as nat),
        decreases left,
    {
        if n - off < 24 {
            proof {
                assert(bytes@.subrange(off as int, n as int).len() < 24);
                assert(parse_entries(bytes@.subrange(off as int, n as int), left as nat) is None);
                assert(parse_entries(all, cnt as nat) is None);
            }
            return Err(FileLoadError::Malformed);
        }
        let ghost rest = bytes@.subrange(off as int, n as int);
        let x: u64 = u64_from_le_bytes(slice_subrange(bytes, off, off + 8));
        let y: u64 = u64_from_le_bytes(slice_subrange(bytes, off + 8, off + 16));
        let l: u64 = u64_from_le_bytes(slice_subrange(bytes, off + 16, off + 24));
        proof {
            assert(bytes@.subrange(off as int, off + 8 as int) =~= rest.subrange(0, 8));
            assert(bytes@.subrange(off + 8 as int, off + 16 as int) =~= rest.subrange(8, 16));
            assert(bytes@.subrange(off + 16 as int, off + 24 as int) =~= rest.subrange(16, 24));
        }
        if x >= 0x4000_0000u64 || y >= 0x4000_0000u64 {
            proof {
                assert(parse_entries(rest, left as nat) is None);
                assert(parse_entries(all, cnt as nat) is None);
            }
            return Err(FileLoadError::Malformed);
        }
        if ((n - off - 24) as u64) < l {
            proof {
                assert(rest.len() - 24 < l);
                assert(parse_entries(rest, left as nat) is None);
                assert(parse_entries(all, cnt as nat) is None);
            }
            return Err(FileLoadError::Malformed);
        }
        let lu: usize = l as usize;
        let sb: Vec<u8> = slice_to_vec(slice_subrange(bytes, off + 24, off + 24 + lu));
        proof {
            assert(sb@ =~= rest.subrange(24, 24 + l));
        }
        let s: String = match string_from_utf8(sb) {
            Some(s) => s,
            None => {
                proof {
                    assert(!valid_utf8(rest.subrange(24, 24 + l)));
                    assert(parse_entries(rest, left as nat) is None);
                    assert(parse_entries(all, cnt as nat) is None);
                }
                return Err(FileLoadError::Malformed);
            },
        };
        let k: u64 = x * 0x4000_0000u64 + y;
        proof {
            assert(k < KEY_BOUND) by (nonlinear_arith)
                requires
                    k == x * 0x4000_0000 + y,
                    x < 0x4000_0000u64 && y < 0x4000_0000u64,
                    KEY_BOUND == 0x1000_0000_0000_0000u64,
            ;
        }
        let ghost pre_t = t@;
        t.insert(k, s);
        proof {
            let e = (k, decode_utf8(rest.subrange(24, 24 + l)));
            assert(parse_entries(rest, left as nat) == opt_concat(
                Seq::empty().push(e),
                parse_entries(rest.subrange(24 + l, rest.len() as int), (left - 1) as nat),
            ));
            assert(bytes@.subrange(off + 24 + l, n as int) =~= rest.subrange(
                24 + l,
                rest.len() as int,
            ));
            lemma_opt_concat_assoc(
                gdone@,
                e,
                parse_entries(rest.subrange(24 + l, rest.len() as int), (left - 1) as nat),
            );
            assert(gdone@.push(e).drop_last() =~= gdone@);
            assert(t@.map_values(|s2: String| s2@) =~= entries_map(gdone@.push(e))) by {
                assert(entries_map(gdone@.push(e)) == entries_map(gdone@).insert(k, e.1));
            }
            gdone@ = gdone@.push(e);
        }
        off = off + 24 + lu;
        left = left - 1;
    }
    if off != n {
        proof {
            assert(bytes@.subrange(off as int, n as int).len() > 0);
            assert(parse_entries(bytes@.subrange(off as int, n as int), 0) is None);
            assert(parse_entries(all, cnt as nat) is None);
        }
        return Err(FileLoadError::Malformed);
    }
    proof {
        assert(bytes@.subrange(off as int, n as int).len() == 0);
        assert(parse_entries(bytes@.subrange(off as int, n as int), 0) == Some(
            Seq::<(u64, Seq<char>)>::empty(),
        ));
        assert(gdone@ + Seq::<(u64, Seq<char>)>::empty() =~= gdone@);
        assert(parse_entries(all, cnt as nat) == Some(gdone@));
    }
    Ok(t)
}

/// `opt_concat` takes one parsed entry at a time.
proof fn lemma_opt_concat_assoc(
    pre: Seq<(u64, Seq<char>)>,
    e: (u64, Seq<char>),
    rest: Option<Seq<(u64, Seq<char>)>>,
)
    ensures
        opt_concat(pre, opt_concat(Seq::empty().push(e), rest)) == opt_concat(pre.push(e), rest),
{
    match rest {
        Some(es) => {
            assert(pre + (Seq::empty().push(e) + es) =~= pre.push(e) + es);
        },
        None => {},
    }
}

proof fn lemma_zero_bytes_len(n: int)
    ensures
        zero_bytes(n).len() == if n <= 0 {
            0int
        } else {
            n
        },
    decreases n,
{
    if n > 0 {
        lemma_zero_bytes_len(n - 1);
    }
}

/// The encoded entry run from `i` on parses back to exactly those entries.
proof fn lemma_parse_encoded(es: Seq<(u64, Seq<char>)>, i: int)
    requires
        0 <= i <= es.len(),
        forall|j: int| 0 <= j < es.len() ==> (#[trigger] es[j]).0 < KEY_BOUND,
        forall|j: int|
            0 <= j < es.len() ==> encode_utf8((#[trigger] es[j]).1).len()
                < 0x1_0000_0000_0000_0000,
    ensures
        parse_entries(entries_bytes(es, i), (es.len() - i) as nat) == Some(
            es.subrange(i, es.len() as int),
        ),
    decreases es.len() - i,
{
    lemma_auto_spec_u64_to_from_le_bytes();
    if i == es.len() {
        assert(entries_bytes(es, i) =~= Seq::<u8>::empty());
        assert(es.subrange(i, es.len() as int) =~= Seq::<(u64, Seq<char>)>::empty());
    } else {
        let k = es[i].0;
        let s = es[i].1;
        let x: u64 = k / 0x4000_0000u64;
        let y: u64 = k % 0x4000_0000u64;
        let sb = encode_utf8(s);
        let l: u64 = sb.len() as u64;
        let b = entries_bytes(es, i);
        let head = enc_entry(k, s);
        assert(head.len() == 24 + sb.len()) by {
            assert(spec_u64_to_le_bytes(x).len() == 8);
        }
        assert(x < 0x4000_0000u64 && y < 0x4000_0000u64) by (nonlinear_arith)
            requires
                k < 0x1000_0000_0000_0000u64,
                x == k / 0x4000_0000u64,
                y == k % 0x4000_0000u64,
        ;
        assert(b =~= head + entries_bytes(es, i + 1));
        assert(b.len() >= 24);
        assert(b.subrange(0, 8) =~= spec_u64_to_le_bytes(x));
        assert(b.subrange(8, 16) =~= spec_u64_to_le_bytes(y));
        assert(b.subrange(16, 24) =~= spec_u64_to_le_bytes(l));
        assert(spec_u64_from_le_bytes(b.subrange(0, 8)) == x);
        assert(spec_u64_from_le_bytes(b.subrange(8, 16)) == y);
        assert(spec_u64_from_le_bytes(b.subrange(16, 24)) == l);
        assert(b.len() - 24 >= l);
        assert(b.subrange(24, 24 + l) =~= sb);
        encode_utf8_valid_utf8(s);
        encode_utf8_decode_utf8(s);
        assert(x * 0x4000_0000u64 + y == k) by (nonlinear_arith)
            requires
                x == k / 0x4000_0000u64,
                y == k % 0x4000_0000u64,
                k < 0x1000_0000_0000_0000u64,
        ;
        assert(b.subrange(24 + l, b.len() as int) =~= entries_bytes(es, i + 1));
        lemma_parse_encoded(es, i + 1);
        assert(Seq::empty().push(((x * 0x4000_0000u64 + y) as u64, decode_utf8(sb)))
            + es.subrange(i + 1, es.len() as int) =~= es.subrange(i, es.len() as int));
    }
}

/// With distinct keys, the rebuilt map holds exactly the entries.
proof fn lemma_entries_map_distinct(es: Seq<(u64, Seq<char>)>)
    requires
        forall|a: int, b: int| 0 <= a < b < es.len() ==> (#[trigger] es[a]).0 != (#[trigger] es[b]).0,
    ensures
        forall|j: int|
            0 <= j < es.len() ==> entries_map(es).dom().contains((#[trigger] es[j]).0)
                && entries_map(es)[es[j].0] == es[j].1,
        forall|k: u64| #[trigger]
            entries_map(es).dom().contains(k) ==> exists|j: int|
                0 <= j < es.len() && (#[trigger] es[j]).0 == k,
    decreases es.len(),
{
    if es.len() > 0 {
        lemma_entries_map_distinct(es.drop_last());
        assert forall|j: int| 0 <= j < es.len() implies entries_map(es).dom().contains(
            (#[trigger] es[j]).0,
        ) && entries_map(es)[es[j].0] == es[j].1 by {
            if j < es.len() - 1 {
                assert(es.drop_last()[j] == es[j]);
                assert(es[j].0 != es.last().0);
            }
        }
        assert forall|k: u64| #[trigger] entries_map(es).dom().contains(k) implies exists|j: int|
            0 <= j < es.len() && (#[trigger] es[j]).0 == k by {
            if k != es.last().0 {
                assert(entries_map(es.drop_last()).dom().contains(k));
                let j = choose|j: int| 0 <= j < es.drop_last().len() && es.drop_last()[j].0 == k;
                assert(es[j].0 == k);
            } else {
                assert(es[es.len() - 1].0 == k);
            }
        }
    }
}

/// Loading a saved table gives the table back: the saved bytes carry the
/// current version, their body parses, and the parsed entries rebuild
/// exactly the table's contents.
pub proof fn lemma_save_load_roundtrip(t: SourceTable)
    requires
        t.wf(),
        forall|k: u64| #[trigger] t@.dom().contains(k) ==> k < KEY_BOUND,
        t.key_seq().len() < 0x1_0000_0000u64,
        forall|i: int|
            0 <= i < table_entries(t).len() ==> encode_utf8(
                (#[trigger] table_entries(t)[i]).1,
            ).len() < 0x1_0000_0000_0000_0000,
    ensures
        save_spec(t).len() >= HEADER_LEN + 8,
        spec_u64_from_le_bytes(save_spec(t).subrange(0, 8)) == FORMAT_V1,
        ({
            let body = save_spec(t).subrange(HEADER_LEN as int, save_spec(t).len() as int);
            &&& body.len() >= 8
            &&& spec_u64_from_le_bytes(body.subrange(0, 8)) == t.key_seq().len()
            &&& parse_entries(body.subrange(8, body.len() as int), t.key_seq().len() as nat)
                == Some(table_entries(t))
            &&& entries_map(table_entries(t)) == t@.map_values(|s: String| s@)
        }),
{
    lemma_auto_spec_u64_to_from_le_bytes();
    lemma_zero_bytes_len(HEADER_LEN - 8);
    let b = save_spec(t);
    let es = table_entries(t);
    t.lemma_no_dup();
    t.lemma_dom();
    assert forall|j: int| 0 <= j < es.len() implies (#[trigger] es[j]).0 < KEY_BOUND by {
        assert(t@.dom().contains(t.key_seq()[j]));
    }
    assert(b.subrange(0, 8) =~= spec_u64_to_le_bytes(FORMAT_V1));
    let body = b.subrange(HEADER_LEN as int, b.len() as int);
    assert(body.subrange(0, 8) =~= spec_u64_to_le_bytes(t.key_seq().len() as u64));
    assert(body.subrange(8, body.len() as int) =~= entries_bytes(es, 0));
    lemma_parse_encoded(es, 0);
    assert(es.subrange(0, es.len() as int) =~= es);
    t.lemma_sorted();
    assert forall|a: int, c: int| 0 <= a < c < es.len() implies (#[trigger] es[a]).0 != (
    #[trigger] es[c]).0 by {
        assert(t.key_seq()[a] < t.key_seq()[c]);
    }
    lemma_entries_map_distinct(es);
    assert(entries_map(es) =~= t@.map_values(|s: String| s@)) by {
        assert forall|k: u64| #[trigger]
            entries_map(es).dom().contains(k) <==> t@.map_values(
                |s: String| s@,
            ).dom().contains(k) by {
            if entries_map(es).dom().contains(k) {
                let j = choose|j: int| 0 <= j < es.len() && (#[trigger] es[j]).0 == k;
                assert(t.key_seq().contains(k)) by {
                    assert(t.key_seq()[j] == k);
                }
            }
            if t@.dom().contains(k) {
                let j = choose|j: int|
                    0 <= j < t.key_seq().len() && t.key_seq()[j] == k;
                assert(es[j].0 == k);
                assert(entries_map(es).dom().contains(es[j].0));
            }
        }
        assert forall|k: u64| entries_map(es).dom().contains(k) implies #[trigger] entries_map(es)[k]
            == t@.map_values(|s: String| s@)[k] by {
            let j = choose|j: int| 0 <= j < es.len() && (#[trigger] es[j]).0 == k;
            assert(entries_map(es)[es[j].0] == es[j].1);
            assert(es[j].1 == t@[t.key_seq()[j]]@);
        }
    }
}

/// Splitting the encoded run at `i` in both directions agrees.
proof fn lemma_prefix_suffix(es: Seq<(u64, Seq<char>)>, i: int)
    requires
        0 <= i <= es.len(),
    ensures
        entries_prefix(es, es.len() as int) == entries_prefix(es, i) + entries_bytes(es, i),
    decreases es.len() - i,
{
    if i == es.len() {
        assert(entries_bytes(es, i) =~= Seq::<u8>::empty());
        assert(entries_prefix(es, i) + entries_bytes(es, i) =~= entries_prefix(es, i));
    } else {
        lemma_prefix_suffix(es, i + 1);
        lemma_entries_prefix_step(es, i);
        assert(entries_prefix(es, i + 1) + entries_bytes(es, i + 1) =~= entries_prefix(es, i) + (
        enc_entry(es[i].0, es[i].1) + entries_bytes(es, i + 1)));
    }
}

} // verus!
