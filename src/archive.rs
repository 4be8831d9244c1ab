use vstd::prelude::*;
use crate::text::{chars_of, ends_with, ends_with_md, md_suffix};
use vstd::slice::slice_subrange;

verus! {

/// Size of a header block and the alignment of every content region.
pub const BLOCK: usize = 512;

/// What permissive UTF-8 decoding makes of a byte sequence.
pub uninterp spec fn lossy_of(b: Seq<u8>) -> Seq<char>;

/// Relies on `String::from_utf8_lossy`: the decoding depends on the bytes alone, and
/// valid UTF-8 is kept as it is, so ASCII bytes decode one character each.
#[verifier::external_body]
fn decode_lossy(b: &[u8]) -> (r: String)
    ensures
        r@ == lossy_of(b@),
        (forall|i: int| 0 <= i < b@.len() ==> #[trigger] b@[i] < 128) ==> r@.len() == b@.len() && forall|
            i: int,
        | 0 <= i < b@.len() ==> (#[trigger] r@[i]) as u32 == b@[i] as u32,
{
    String::from_utf8_lossy(b).to_string()
}

/// One member file taken out of an archive.
pub struct ArchiveEntry {
    pub filename: String,
    pub content: String,
}

impl View for ArchiveEntry {
    type V = (Seq<char>, Seq<char>);

    open spec fn view(&self) -> (Seq<char>, Seq<char>) {
        (self.filename@, self.content@)
    }
}

/// The views of a sequence of entries.
pub open spec fn entries_view(v: Seq<ArchiveEntry>) -> Seq<(Seq<char>, Seq<char>)> {
    v.map_values(|e: ArchiveEntry| e@)
}

/// The 512 bytes at `off` are all zero.
pub open spec fn block_is_zero(d: Seq<u8>, off: int) -> bool {
    forall|i: int| off <= i < off + 512 ==> d[i] == 0
}

/// The first index in `[i, lim)` whose byte is zero, or `lim` if none is.
pub open spec fn nul_from(d: Seq<u8>, i: int, lim: int) -> int
    decreases lim - i,
{
    if i >= lim {
        lim
    } else if d[i] == 0 {
        i
    } else {
        nul_from(d, i + 1, lim)
    }
}

/// The first index in `[i, lim)` whose byte is zero or a space, or `lim` if none is.
pub open spec fn stop_from(d: Seq<u8>, i: int, lim: int) -> int
    decreases lim - i,
{
    if i >= lim {
        lim
    } else if d[i] == 0 || d[i] == 32 {
        i
    } else {
        stop_from(d, i + 1, lim)
    }
}

/// The raw bytes of the name field of the header at `off`.
pub open spec fn name_bytes(d: Seq<u8>, off: int) -> Seq<u8> {
    d.subrange(off, nul_from(d, off, off + 100))
}

/// The raw bytes of the size field of the header at `off`, cut at its terminator.
pub open spec fn size_bytes(d: Seq<u8>, off: int) -> Seq<u8> {
    d.subrange(off + 124, stop_from(d, off + 124, off + 136))
}

pub open spec fn is_octal_digit(b: u8) -> bool {
    48 <= b <= 55
}

/// The value of a sequence of octal digits.
pub open spec fn octal_value(s: Seq<u8>) -> int
    decreases s.len(),
{
    if s.len() == 0 {
        0
    } else {
        octal_value(s.drop_last()) * 8 + (s.last() - 48)
    }
}

/// The digits that an unsigned radix parse reads: a single leading `+` is dropped.
pub open spec fn unsigned_digits(s: Seq<u8>) -> Seq<u8> {
    if s.len() > 0 && s[0] == 43 {
        s.drop_first()
    } else {
        s
    }
}

/// A size field that parses as an unsigned 64-bit octal number.
pub open spec fn octal_ok(s: Seq<u8>) -> bool {
    let t = unsigned_digits(s);
    &&& t.len() > 0
    &&& forall|i: int| 0 <= i < t.len() ==> is_octal_digit(#[trigger] t[i])
    &&& octal_value(t) <= u64::MAX
}

/// The size that a field declares: its octal value, or zero where it does not parse.
pub open spec fn field_size(s: Seq<u8>) -> int {
    if octal_ok(s) {
        octal_value(unsigned_digits(s))
    } else {
        0
    }
}

/// `n` rounded up to a multiple of 512.
pub open spec fn padded(n: int) -> int {
    ((n + 511) / 512) * 512
}

/// The entry that the header at `off` yields, if it is a non-empty `.md` file whose
/// content lies within the buffer.
pub open spec fn entry_at(d: Seq<u8>, off: int) -> Seq<(Seq<char>, Seq<char>)> {
    let name = lossy_of(name_bytes(d, off));
    let size = field_size(size_bytes(d, off));
    if size > 0 && ends_with(name, md_suffix()) && off + 512 + size <= d.len() {
        seq![(name, lossy_of(d.subrange(off + 512, off + 512 + size)))]
    } else {
        seq![]
    }
}

/// The offset of the header that follows the one at `off`.
pub open spec fn next_offset(d: Seq<u8>, off: int) -> int {
    off + 512 + padded(field_size(size_bytes(d, off)))
}

/// The entries that a scan starting with a header at `off` extracts.
pub open spec fn entries_from(d: Seq<u8>, off: int) -> Seq<(Seq<char>, Seq<char>)>
    decreases d.len() - off,
    via entries_from_decreases
{
    if off < 0 || off + 512 > d.len() || block_is_zero(d, off) {
        seq![]
    } else {
        let rest = if next_offset(d, off) <= d.len() {
            entries_from(d, next_offset(d, off))
        } else {
            seq![]
        };
        entry_at(d, off) + rest
    }
}

proof fn lemma_octal_nonneg(s: Seq<u8>)
    requires
        forall|i: int| 0 <= i < s.len() ==> is_octal_digit(#[trigger] s[i]),
    ensures
        octal_value(s) >= 0,
    decreases s.len(),
{
    if s.len() > 0 {
        lemma_octal_nonneg(s.drop_last());
        assert(is_octal_digit(s[s.len() - 1]));
    }
}

proof fn lemma_field_size_nonneg(s: Seq<u8>)
    ensures
        field_size(s) >= 0,
{
    if octal_ok(s) {
        lemma_octal_nonneg(unsigned_digits(s));
    }
}

#[via_fn]
proof fn entries_from_decreases(d: Seq<u8>, off: int) {
    lemma_field_size_nonneg(size_bytes(d, off));
}

/// The entries extracted from a whole archive buffer.
pub open spec fn archive_entries(d: Seq<u8>) -> Seq<(Seq<char>, Seq<char>)> {
    entries_from(d, 0)
}

/// `8` to the power `n`.
pub open spec fn pow8(n: nat) -> int
    decreases n,
{
    if n == 0 {
        1
    } else {
        8 * pow8((n - 1) as nat)
    }
}

proof fn lemma_pow8_mono(a: nat, b: nat)
    requires
        a <= b,
    ensures
        1 <= pow8(a) <= pow8(b),
    decreases b,
{
    if b > a {
        lemma_pow8_mono(a, (b - 1) as nat);
    } else if a > 0 {
        lemma_pow8_mono((a - 1) as nat, (a - 1) as nat);
    }
}

/// Whether the 512 bytes at `off` are all zero.
fn block_zero(d: &[u8], off: usize) -> (r: bool)
    requires
        off + 512 <= d@.len(),
    ensures
        r == block_is_zero(d@, off as int),
{
    let mut i: usize = off;
    while i - off < 512
        invariant
            off <= i <= off + 512,
            off + 512 <= d@.len(),
            forall|k: int| off <= k < i ==> d@[k] == 0,
        decreases off + 512 - i,
    {
        if d[i] != 0 {
            return false;
        }
        i = i + 1;
    }
    true
}

/// The first index in `[start, lim)` holding a zero byte, or `lim`.
fn find_nul(d: &[u8], start: usize, lim: usize) -> (r: usize)
    requires
        start <= lim <= d@.len(),
    ensures
        r == nul_from(d@, start as int, lim as int),
        start <= r <= lim,
{
    let mut i: usize = start;
    while i < lim
        invariant
            start <= i <= lim <= d@.len(),
            nul_from(d@, start as int, lim as int) == nul_from(d@, i as int, lim as int),
        decreases lim - i,
    {
        if d[i] == 0 {
            return i;
        }
        i = i + 1;
    }
    i
}

/// The first index in `[start, lim)` holding a zero byte or a space, or `lim`.
fn find_stop(d: &[u8], start: usize, lim: usize) -> (r: usize)
    requires
        start <= lim <= d@.len(),
    ensures
        r == stop_from(d@, start as int, lim as int),
        start <= r <= lim,
{
    let mut i: usize = start;
    while i < lim
        invariant
            start <= i <= lim <= d@.len(),
            stop_from(d@, start as int, lim as int) == stop_from(d@, i as int, lim as int),
        decreases lim - i,
    {
        if d[i] == 0 || d[i] == 32 {
            return i;
        }
        i = i + 1;
    }
    i
}

/// Reads a size field of at most twelve bytes as an unsigned octal number;
/// a field that does not parse reads as zero.
pub fn parse_size_field(s: &[u8]) -> (r: u64)
    requires
        s@.len() <= 12,
    ensures
        r == field_size(s@),
        r < 68719476736,
{
    let n = s.len();
    let mut i: usize = 0;
    if n > 0 && s[0] == 43 {
        i = 1;
    }
    let start = i;
    proof {
        assert(unsigned_digits(s@) =~= s@.subrange(start as int, n as int));
        reveal_with_fuel(pow8, 13);
        lemma_pow8_mono(0, 12);
    }
    if start == n {
        return 0;
    }
    let mut acc: u64 = 0;
    while i < n
        invariant
            start <= i <= n == s@.len() <= 12,
            start <= 1,
            unsigned_digits(s@) =~= s@.subrange(start as int, n as int),
            acc == octal_value(s@.subrange(start as int, i as int)),
            acc < pow8((i - start) as nat),
            pow8(12) == 68719476736,
            forall|k: int| start <= k < i ==> is_octal_digit(#[trigger] s@[k]),
        decreases n - i,
    {
        let b = s[i];
        if b < 48 || b > 55 {
            proof {
                let t = unsigned_digits(s@);
                assert(t[i - start] == b);
            }
            return 0;
        }
        proof {
            lemma_pow8_mono((i - start) as nat, 11);
            assert(s@.subrange(start as int, i + 1).drop_last() =~= s@.subrange(start as int, i as int));
            assert(pow8((i + 1 - start) as nat) == 8 * pow8((i - start) as nat));
            assert(acc * 8 + 7 < 8 * pow8((i - start) as nat)) by (nonlinear_arith)
                requires acc < pow8((i - start) as nat);
        }
        acc = acc * 8 + (b - 48) as u64;
        i = i + 1;
    }
    proof {
        lemma_pow8_mono((n - start) as nat, 12);
        let t = unsigned_digits(s@);
        assert forall|k: int| 0 <= k < t.len() implies is_octal_digit(#[trigger] t[k]) by {
            assert(t[k] == s@[k + start]);
        }
    }
    acc
}

/// Extracts every non-empty member file whose name ends in `.md` from an archive
/// buffer of 512-byte headers, in archive order. The scan stops at the first
/// all-zero header block or where fewer than 512 bytes remain.
pub fn process_tar_archive(tar_data: &[u8]) -> (r: Vec<ArchiveEntry>)
    ensures
        entries_view(r@) == archive_entries(tar_data@),
{
    let d = tar_data;
    let len = d.len();
    let mut out: Vec<ArchiveEntry> = Vec::new();
    let mut off: usize = 0;
    while off <= len && len - off >= BLOCK
        invariant
            len == d@.len(),
            off <= len,
            entries_view(out@) + entries_from(d@, off as int) == archive_entries(d@),
        decreases len - off,
    {
        let ghost old_out = out@;
        if block_zero(d, off) {
            proof {
                assert(entries_from(d@, len as int) == Seq::<(Seq<char>, Seq<char>)>::empty());
            }
            off = len;
        } else {
            let name_end = find_nul(d, off, off + 100);
            let filename = decode_lossy(slice_subrange(d, off, name_end));
            let size_end = find_stop(d, off + 124, off + 136);
            let size = parse_size_field(slice_subrange(d, off + 124, size_end));
            let name_chars = chars_of(&filename);
            let avail: usize = len - off - BLOCK;
            if size > 0 && ends_with_md(&name_chars) && size <= avail as u64 {
                let start = off + BLOCK;
                let content = decode_lossy(slice_subrange(d, start, start + size as usize));
                out.push(ArchiveEntry { filename, content });
            }
            proof {
                assert(entries_view(out@) =~= entries_view(old_out) + entry_at(d@, off as int));
            }
            let p: u64 = ((size + 511) / 512) * 512;
            proof {
                assert(((size + 511) / 512) * 512 <= size + 511) by (nonlinear_arith);
            }
            if p <= avail as u64 {
                off = off + BLOCK + p as usize;
            } else {
                off = len;
            }
        }
    }
    proof {
        assert(entries_view(out@) + entries_from(d@, off as int) =~= entries_view(out@));
    }
    out
}

/// The scan that starts with a header at `off` ends at an all-zero block at `z`.
pub open spec fn scan_stops_at(d: Seq<u8>, off: int, z: int) -> bool
    decreases d.len() - off,
    via scan_stops_at_decreases
{
    if off < 0 || off + 512 > d.len() {
        false
    } else if block_is_zero(d, off) {
        off == z
    } else {
        next_offset(d, off) <= d.len() && scan_stops_at(d, next_offset(d, off), z)
    }
}

#[via_fn]
proof fn scan_stops_at_decreases(d: Seq<u8>, off: int, z: int) {
    lemma_field_size_nonneg(size_bytes(d, off));
}

/// Once a scan reaches an all-zero block, nothing after that block changes what is
/// extracted: two buffers that agree up to the end of the block give the same entries.
pub proof fn lemma_scan_ignores_bytes_after_zero_block(d1: Seq<u8>, d2: Seq<u8>, off: int, z: int)
    requires
        scan_stops_at(d1, off, z),
        d2.len() >= z + 512,
        forall|i: int| 0 <= i < z + 512 ==> d1[i] == d2[i],
    ensures
        entries_from(d1, off) == entries_from(d2, off),
        entries_from(d1, z) == Seq::<(Seq<char>, Seq<char>)>::empty(),
    decreases d1.len() - off,
{
    lemma_stop_bounds(d1, off, z);
    if block_is_zero(d1, off) {
        assert(block_is_zero(d2, off));
    } else {
        let n = next_offset(d1, off);
        lemma_stop_bounds(d1, n, z);
        assert(!block_is_zero(d2, off)) by {
            let k = choose|k: int| off <= k < off + 512 && d1[k] != 0;
            assert(d2[k] != 0);
        }
        lemma_nul_from_frame(d1, d2, off, off + 100);
        lemma_stop_from_frame(d1, d2, off + 124, off + 136);
        assert(name_bytes(d1, off) =~= name_bytes(d2, off));
        assert(size_bytes(d1, off) =~= size_bytes(d2, off));
        let size = field_size(size_bytes(d1, off));
        lemma_field_size_nonneg(size_bytes(d1, off));
        assert(size <= padded(size)) by (nonlinear_arith)
            requires size >= 0;
        if off + 512 + size <= d1.len() {
            assert(d1.subrange(off + 512, off + 512 + size) =~= d2.subrange(off + 512, off + 512 + size));
        }
        assert(entry_at(d1, off) == entry_at(d2, off));
        assert(next_offset(d2, off) == n);
        lemma_scan_ignores_bytes_after_zero_block(d1, d2, n, z);
    }
}

proof fn lemma_stop_bounds(d: Seq<u8>, off: int, z: int)
    requires
        scan_stops_at(d, off, z),
    ensures
        0 <= off <= z,
        z + 512 <= d.len(),
    decreases d.len() - off,
{
    if !block_is_zero(d, off) {
        lemma_field_size_nonneg(size_bytes(d, off));
        lemma_stop_bounds(d, next_offset(d, off), z);
    }
}

proof fn lemma_nul_from_frame(d1: Seq<u8>, d2: Seq<u8>, i: int, lim: int)
    requires
        0 <= i,
        lim <= d1.len(),
        lim <= d2.len(),
        forall|k: int| i <= k < lim ==> d1[k] == d2[k],
    ensures
        nul_from(d1, i, lim) == nul_from(d2, i, lim),
        i <= lim ==> i <= nul_from(d1, i, lim) <= lim,
    decreases lim - i,
{
    if i < lim {
        lemma_nul_from_frame(d1, d2, i + 1, lim);
    }
}

proof fn lemma_stop_from_frame(d1: Seq<u8>, d2: Seq<u8>, i: int, lim: int)
    requires
        0 <= i,
        lim <= d1.len(),
        lim <= d2.len(),
        forall|k: int| i <= k < lim ==> d1[k] == d2[k],
    ensures
        stop_from(d1, i, lim) == stop_from(d2, i, lim),
        i <= lim ==> i <= stop_from(d1, i, lim) <= lim,
    decreases lim - i,
{
    if i < lim {
        lemma_stop_from_frame(d1, d2, i + 1, lim);
    }
}

/// A header whose member is empty or not named `.md` contributes nothing, and the scan
/// goes on at the header after its whole padded content region.
pub proof fn lemma_skipped_entry_keeps_alignment(d: Seq<u8>, off: int)
    requires
        0 <= off,
        off + 512 <= d.len(),
        !block_is_zero(d, off),
        field_size(size_bytes(d, off)) == 0 || !ends_with(lossy_of(name_bytes(d, off)), md_suffix()),
        next_offset(d, off) <= d.len(),
    ensures
        entries_from(d, off) == entries_from(d, next_offset(d, off)),
{
    assert(entry_at(d, off) =~= Seq::<(Seq<char>, Seq<char>)>::empty());
    assert(entries_from(d, off) =~= entries_from(d, next_offset(d, off)));
}

/// Every extracted entry has a name ending in `.md`.
pub proof fn lemma_extracted_names_are_md(d: Seq<u8>, off: int)
    ensures
        forall|i: int|
            0 <= i < entries_from(d, off).len() ==> ends_with(
                (#[trigger] entries_from(d, off)[i]).0,
                md_suffix(),
            ),
    decreases d.len() - off,
{
    if !(off < 0 || off + 512 > d.len() || block_is_zero(d, off)) {
        let n = next_offset(d, off);
        lemma_field_size_nonneg(size_bytes(d, off));
        if n <= d.len() {
            lemma_extracted_names_are_md(d, n);
        }
        let e = entries_from(d, off);
        let here = entry_at(d, off);
        assert forall|i: int| 0 <= i < e.len() implies ends_with((#[trigger] e[i]).0, md_suffix()) by {
            if i >= here.len() {
                if n <= d.len() {
                    assert(e[i] == entries_from(d, n)[i - here.len()]);
                }
            }
        }
    }
}

/// Starting with a header at `off`, the scan steps over whole entries, none of them an
/// all-zero block, and arrives at `end`.
pub open spec fn scan_reaches(d: Seq<u8>, off: int, end: int) -> bool
    decreases d.len() - off,
    via scan_reaches_decreases
{
    if off == end {
        true
    } else if off < 0 || off + 512 > d.len() || block_is_zero(d, off) {
        false
    } else {
        next_offset(d, off) <= d.len() && scan_reaches(d, next_offset(d, off), end)
    }
}

#[via_fn]
proof fn scan_reaches_decreases(d: Seq<u8>, off: int, end: int) {
    lemma_field_size_nonneg(size_bytes(d, off));
}

/// An all-zero block: the archive terminator.
pub open spec fn zero_block() -> Seq<u8> {
    Seq::new(512, |i: int| 0u8)
}

proof fn lemma_entries_before_terminator(a: Seq<u8>, c: Seq<u8>, off: int)
    requires
        0 <= off,
        scan_reaches(a, off, a.len() as int),
    ensures
        entries_from(a + zero_block() + c, off) == entries_from(a, off),
    decreases a.len() - off,
{
    let d = a + zero_block() + c;
    assert forall|k: int| 0 <= k < a.len() implies d[k] == a[k] by {}
    if off == a.len() {
        assert forall|k: int| off <= k < off + 512 implies d[k] == 0 by {
            assert(d[k] == zero_block()[k - a.len()]);
        }
    } else {
        let n = next_offset(a, off);
        lemma_nul_from_frame(a, d, off, off + 100);
        lemma_stop_from_frame(a, d, off + 124, off + 136);
        assert(name_bytes(a, off) =~= name_bytes(d, off));
        assert(size_bytes(a, off) =~= size_bytes(d, off));
        assert(!block_is_zero(d, off)) by {
            let k = choose|k: int| off <= k < off + 512 && a[k] != 0;
            assert(d[k] != 0);
        }
        let size = field_size(size_bytes(a, off));
        lemma_field_size_nonneg(size_bytes(a, off));
        assert(size <= padded(size)) by (nonlinear_arith)
            requires size >= 0;
        assert(a.subrange(off + 512, off + 512 + size) =~= d.subrange(off + 512, off + 512 + size));
        assert(entry_at(a, off) == entry_at(d, off));
        assert(next_offset(d, off) == n);
        lemma_entries_before_terminator(a, c, n);
    }
}

/// Bytes after the terminator never matter: where the scan of `a` steps over whole
/// entries to its end, `a` followed by an all-zero block and any bytes at all yields
/// exactly the entries of `a`.
pub proof fn lemma_bytes_after_terminator_ignored(a: Seq<u8>, c: Seq<u8>)
    requires
        scan_reaches(a, 0, a.len() as int),
    ensures
        archive_entries(a + zero_block() + c) == archive_entries(a),
{
    lemma_entries_before_terminator(a, c, 0);
}

/// The header at `h` holds a non-empty `.md` member whose content lies in the buffer,
/// and `e` is its name and content, decoded.
pub open spec fn extracted_at(d: Seq<u8>, h: int, e: (Seq<char>, Seq<char>)) -> bool {
    let size = field_size(size_bytes(d, h));
    &&& 0 <= h
    &&& h + 512 <= d.len()
    &&& !block_is_zero(d, h)
    &&& size > 0
    &&& h + 512 + size <= d.len()
    &&& ends_with(lossy_of(name_bytes(d, h)), md_suffix())
    &&& e == (lossy_of(name_bytes(d, h)), lossy_of(d.subrange(h + 512, h + 512 + size)))
}

/// `e` was extracted from a header that the scan reaches from `off`.
pub open spec fn from_reached_header(d: Seq<u8>, off: int, e: (Seq<char>, Seq<char>)) -> bool {
    exists|h: int| #[trigger] scan_reaches(d, off, h) && extracted_at(d, h, e)
}

/// Every extracted entry is a non-empty `.md` member read from a header that the scan
/// reaches by whole padded steps from `off`, whether or not the entries before it were
/// extracted.
pub proof fn lemma_entries_come_from_reached_headers(d: Seq<u8>, off: int)
    requires
        0 <= off,
    ensures
        forall|i: int|
            0 <= i < entries_from(d, off).len() ==> from_reached_header(d, off, #[trigger] entries_from(d, off)[i]),
    decreases d.len() - off,
{
    if !(off + 512 > d.len() || block_is_zero(d, off)) {
        let n = next_offset(d, off);
        lemma_field_size_nonneg(size_bytes(d, off));
        if n <= d.len() {
            lemma_entries_come_from_reached_headers(d, n);
        }
        let e = entries_from(d, off);
        let here = entry_at(d, off);
        assert forall|i: int| 0 <= i < e.len() implies from_reached_header(d, off, #[trigger] e[i]) by {
            if i < here.len() {
                assert(scan_reaches(d, off, off));
                assert(extracted_at(d, off, e[i]));
            } else {
                assert(n <= d.len());
                let r = entries_from(d, n);
                assert(e[i] == r[i - here.len()]);
                assert(from_reached_header(d, n, r[i - here.len()]));
                let h = choose|h: int| #[trigger] scan_reaches(d, n, h) && extracted_at(d, h, r[i - here.len()]);
                assert(scan_reaches(d, off, h));
            }
        }
    }
}

} // verus!
