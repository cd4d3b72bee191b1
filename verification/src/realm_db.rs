//! Read-only decoding of the osu!lazer `client.realm` database (Realm file format v24): node
//! headers, integer and string arrays, the table directory, cluster leaves and columns, and the
//! assembly of beatmap sets and their file lists.
use vstd::prelude::*;
use crate::text::string_views;
use crate::text::{chars_of, str_eq, push_char, push_str, string_of_range, lowercase, to_lower, ends_with, eq_ignore_ascii_case, eq_ignore_case_range, last_index, last_index_of, has_suffix};
use crate::thumbs::{from_utf8_lossy, utf8_lossy};

verus! {

broadcast use vstd::string::group_string_axioms;

/// Size of a node header in bytes.
pub const NODE_HEADER_SIZE: usize = 8;
/// Most elements an array read returns.
pub const MAX_ARRAY_ELEMS: u64 = 10_000_000;

/// Little-endian value of bytes.
pub open spec fn le_value(b: Seq<u8>) -> nat
    decreases b.len(),
{
    if b.len() == 0 { 0 } else { b[0] as nat + 256 * le_value(b.drop_first()) }
}

pub open spec fn pow2(k: nat) -> nat
    decreases k,
{
    if k == 0 { 1 } else { 2 * pow2((k - 1) as nat) }
}

/// The fields of the node header at `off`: (wtype, element width, size, inner flag).
pub open spec fn header_spec(data: Seq<u8>, off: int) -> (u8, u8, nat, bool) {
    let flags = data[off + 4];
    let enc = flags % 8;
    (
        (flags / 8) % 4,
        if enc == 0 { 0 } else { pow2((enc - 1) as nat) as u8 },
        (data[off + 5] as nat) * 65536 + (data[off + 6] as nat) * 256 + data[off + 7] as nat,
        flags >= 128,
    )
}

proof fn lemma_header_bits(flags: u8)
    ensures
        (flags & 0x18) >> 3 == (flags / 8) % 4,
        flags & 0x07 == flags % 8,
        (flags & 0x80 != 0) == (flags >= 128),
{
    assert((flags & 0x18) >> 3 == (flags / 8) % 4) by (bit_vector);
    assert(flags & 0x07 == flags % 8) by (bit_vector);
    assert((flags & 0x80 != 0) == (flags >= 128)) by (bit_vector);
}

/// (wtype, width, size) of the node at `off`, when its header is inside the data.
pub fn node_wtype(data: &[u8], off: usize) -> (r: Option<(u8, u8, usize)>)
    ensures
        off + NODE_HEADER_SIZE > data@.len() ==> r is None,
        off + NODE_HEADER_SIZE <= data@.len() ==> (r matches Some((w, wd, sz))
            && w == header_spec(data@, off as int).0 && wd == header_spec(data@, off as int).1
            && sz as nat == header_spec(data@, off as int).2),
{
    if off > data.len() || data.len() - off < NODE_HEADER_SIZE {
        return None;
    }
    let flags = data[off + 4];
    proof {
        lemma_header_bits(flags);
    }
    let enc = flags & 0x07;
    let width: u8 = if enc == 0 { 0 } else { 1u8 << (enc - 1) };
    proof {
        assert(enc <= 7);
        assert(pow2(0) == 1 && pow2(1) == 2 && pow2(2) == 4 && pow2(3) == 8 && pow2(4) == 16
            && pow2(5) == 32 && pow2(6) == 64) by {
            reveal_with_fuel(pow2, 7);
        }
        assert(enc >= 1 ==> (1u8 << (enc - 1)) as nat == pow2((enc - 1) as nat)) by {
            if enc >= 1 {
                let e = (enc - 1) as u8;
                assert(e <= 6);
                assert(e == 0 ==> 1u8 << e == 1) by (bit_vector);
                assert(e == 1 ==> 1u8 << e == 2) by (bit_vector);
                assert(e == 2 ==> 1u8 << e == 4) by (bit_vector);
                assert(e == 3 ==> 1u8 << e == 8) by (bit_vector);
                assert(e == 4 ==> 1u8 << e == 16) by (bit_vector);
                assert(e == 5 ==> 1u8 << e == 32) by (bit_vector);
                assert(e == 6 ==> 1u8 << e == 64) by (bit_vector);
            }
        }
    }
    let wtype = (flags & 0x18) >> 3;
    let size = (data[off + 5] as usize) * 65536 + (data[off + 6] as usize) * 256 + data[off + 7] as usize;
    Some((wtype, width, size))
}

/// A non-zero, 8-aligned offset whose node header lies inside the data.
pub open spec fn is_ref_spec(off: u64, len: nat) -> bool {
    off != 0 && off % 8 == 0 && off + NODE_HEADER_SIZE <= len
}

/// The value can be followed as a node reference.
pub fn is_ref(off: u64, data: &[u8]) -> (b: bool)
    ensures
        b == is_ref_spec(off, data@.len()),
{
    off != 0 && off % 8 == 0 && off <= data.len() as u64 && data.len() as u64 - off >= 8
}

} // verus!

verus! {

pub open spec fn pow256(k: nat) -> nat
    decreases k,
{
    if k == 0 { 1 } else { 256 * pow256((k - 1) as nat) }
}

proof fn lemma_le_bound(b: Seq<u8>)
    ensures
        le_value(b) < pow256(b.len()),
    decreases b.len(),
{
    if b.len() > 0 {
        lemma_le_bound(b.drop_first());
    }
}

/// Little-endian value of `p[start..start + n]` (n <= 8).
fn le_bytes(p: &[u8], start: usize, n: usize) -> (r: u64)
    requires
        n <= 8,
        start + n <= p@.len(),
    ensures
        r as nat == le_value(p@.subrange(start as int, start + n)),
{
    proof {
        assert(pow256(8) == 0x1_0000_0000_0000_0000) by {
            reveal_with_fuel(pow256, 9);
        }
    }
    assert(p@.len() == p.len());
    let mut v: u64 = 0;
    let mut j: usize = n;
    assert(p@.subrange(start + n, start + n) =~= Seq::<u8>::empty());
    while j > 0
        invariant
            j <= n <= 8,
            start + n <= p@.len(),
            p@.len() == p.len(),
            pow256(8) == 0x1_0000_0000_0000_0000,
            v as nat == le_value(p@.subrange(start + j, start + n)),
        decreases j,
    {
        let ghost tail = p@.subrange(start + j, start + n);
        let ghost s2 = p@.subrange(start + j - 1, start + n);
        assert(s2.drop_first() =~= tail);
        proof {
            lemma_le_bound(s2);
            lemma_pow256_mono(s2.len(), 8);
        }
        assert(v as nat * 256 + p@[start + j - 1] as nat == le_value(s2));
        v = v * 256 + p[start + j - 1] as u64;
        j -= 1;
    }
    v
}

proof fn lemma_pow256_mono(a: nat, b: nat)
    requires
        a <= b,
    ensures
        pow256(a) <= pow256(b),
    decreases b,
{
    if a < b {
        lemma_pow256_mono(a, (b - 1) as nat);
    }
}

/// Element `i` of a bit-packed array with element width `w` bits.
pub open spec fn bits_elem(p: Seq<u8>, i: int, w: u8) -> u64 {
    if w == 1 {
        ((p[i / 8] >> ((i % 8) as u8)) & 1) as u64
    } else if w == 2 {
        ((p[i / 4] >> (((i % 4) * 2) as u8)) & 3) as u64
    } else if w == 4 {
        ((p[i / 2] >> (((i % 2) * 4) as u8)) & 15) as u64
    } else if w == 8 {
        p[i] as u64
    } else if w == 16 {
        le_value(p.subrange(i * 2, i * 2 + 2)) as u64
    } else if w == 32 {
        le_value(p.subrange(i * 4, i * 4 + 4)) as u64
    } else if w == 64 {
        le_value(p.subrange(i * 8, i * 8 + 8)) as u64
    } else {
        0
    }
}

/// Element `i` of an array of `w`-byte slots.
pub open spec fn slot_elem(p: Seq<u8>, i: int, w: u8) -> u64 {
    if w == 8 || w == 4 || w == 2 || w == 1 {
        le_value(p.subrange(i * w, i * w + w)) as u64
    } else {
        0
    }
}

/// Number of elements read from the array at `off`: the header's size, clamped to what the
/// payload holds and to ten million; none for other node types.
pub open spec fn arr_len(data: Seq<u8>, off: int) -> nat {
    let h = header_spec(data, off);
    let plen = (data.len() - off - 8) as nat;
    let maxe: nat = if h.0 == 1 && h.1 > 0 {
        plen / (h.1 as nat)
    } else if h.1 > 0 {
        plen * 8 / (h.1 as nat)
    } else {
        0
    };
    if h.0 != 0 && h.0 != 1 {
        0
    } else {
        let s = if h.2 < maxe { h.2 } else { maxe };
        if s < MAX_ARRAY_ELEMS { s } else { MAX_ARRAY_ELEMS as nat }
    }
}

/// The elements of the array at `off`.
pub open spec fn arr_spec(data: Seq<u8>, off: int) -> Seq<u64> {
    let h = header_spec(data, off);
    let p = data.skip(off + 8);
    Seq::new(arr_len(data, off), |i: int| if h.0 == 0 { bits_elem(p, i, h.1) } else { slot_elem(p, i, h.1) })
}

/// What `read_arr` returns for an offset: the array when the offset is a usable reference,
/// nothing otherwise.
pub open spec fn arr_at(data: Seq<u8>, off: int) -> Seq<u64> {
    if off == 0 || off % 8 != 0 || off + 8 > data.len() { Seq::empty() } else { arr_spec(data, off) }
}

fn bits_elem_exec(p: &[u8], i: usize, w: u8, size: usize) -> (r: u64)
    requires
        i < size,
        w > 0 ==> size * (w as nat) <= p@.len() * 8,
        w == 1 || w == 2 || w == 4 || w == 8 || w == 16 || w == 32 || w == 64 || w == 0,
    ensures
        r == bits_elem(p@, i as int, w),
{
    assert(p@.len() == p.len());
    if w == 1 {
        let b = p[i / 8];
        let k = (i % 8) as u8;
        (b >> k & 1) as u64
    } else if w == 2 {
        let b = p[i / 4];
        let k = ((i % 4) * 2) as u8;
        (b >> k & 3) as u64
    } else if w == 4 {
        let b = p[i / 2];
        let k = ((i % 2) * 4) as u8;
        (b >> k & 15) as u64
    } else if w == 8 {
        p[i] as u64
    } else if w == 16 {
        assert(i * 2 + 2 <= p@.len()) by (nonlinear_arith)
            requires i < size, size * 16 <= p@.len() * 8;
        le_bytes(p, i * 2, 2)
    } else if w == 32 {
        assert(i * 4 + 4 <= p@.len()) by (nonlinear_arith)
            requires i < size, size * 32 <= p@.len() * 8;
        le_bytes(p, i * 4, 4)
    } else if w == 64 {
        assert(i * 8 + 8 <= p@.len()) by (nonlinear_arith)
            requires i < size, size * 64 <= p@.len() * 8;
        le_bytes(p, i * 8, 8)
    } else {
        0
    }
}

fn slot_elem_exec(p: &[u8], i: usize, w: u8, size: usize) -> (r: u64)
    requires
        i < size,
        w > 0 ==> size * (w as nat) <= p@.len(),
    ensures
        r == slot_elem(p@, i as int, w),
{
    assert(p@.len() == p.len());
    if w == 8 || w == 4 || w == 2 || w == 1 {
        assert(i * (w as nat) + w <= size * (w as nat)) by (nonlinear_arith)
            requires i < size, w > 0;
        assert(i * (w as nat) + w <= p@.len());
        le_bytes(p, i * (w as usize), w as usize)
    } else {
        0
    }
}

/// The array at `off` (its header inside the data): elements by the node's packing.
pub fn read_array(data: &[u8], off: usize) -> (r: Vec<u64>)
    requires
        off + NODE_HEADER_SIZE <= data@.len(),
    ensures
        r@ == arr_spec(data@, off as int),
{
    let (wtype, width, hsize) = match node_wtype(data, off) {
        Some(h) => h,
        None => return Vec::new(),
    };
    assert(data@.len() == data.len());
    let payload = &data[off + 8..data.len()];
    assert(payload@ =~= data@.skip(off + 8));
    let plen = payload.len();
    let maxe: u128 = if wtype == 1 && width > 0 {
        (plen / (width as usize)) as u128
    } else if width > 0 {
        (plen as u128 * 8) / (width as u128)
    } else {
        0
    };
    let mut size: usize = if (hsize as u128) < maxe { hsize } else { maxe as usize };
    if size > MAX_ARRAY_ELEMS as usize {
        size = MAX_ARRAY_ELEMS as usize;
    }
    let ghost h = header_spec(data@, off as int);
    assert(width == 0 || width == 1 || width == 2 || width == 4 || width == 8 || width == 16 || width == 32 || width == 64) by {
        reveal_with_fuel(pow2, 7);
    }
    let mut elems: Vec<u64> = Vec::new();
    if wtype != 0 && wtype != 1 {
        assert(elems@ =~= arr_spec(data@, off as int));
        return elems;
    }
    assert(size as nat == arr_len(data@, off as int));
    proof {
        if width > 0 {
            if wtype == 1 {
                assert(size * (width as nat) <= plen) by (nonlinear_arith)
                    requires size as int <= (plen as int) / (width as int), width > 0;
            } else {
                assert(size * (width as nat) <= plen * 8) by (nonlinear_arith)
                    requires size as int <= (plen as int) * 8 / (width as int), width > 0;
            }
        }
    }
    let mut i: usize = 0;
    while i < size
        invariant
            i <= size,
            size as nat == arr_len(data@, off as int),
            wtype == 0 || wtype == 1,
            h == header_spec(data@, off as int),
            wtype == h.0,
            width == h.1,
            payload@ == data@.skip(off + 8),
            width == 0 || width == 1 || width == 2 || width == 4 || width == 8 || width == 16 || width == 32 || width == 64,
            wtype == 1 && width > 0 ==> size * (width as nat) <= payload@.len(),
            wtype == 0 && width > 0 ==> size * (width as nat) <= payload@.len() * 8,
            elems@ == arr_spec(data@, off as int).take(i as int),
        decreases size - i,
    {
        let v = if wtype == 0 {
            bits_elem_exec(payload, i, width, size)
        } else {
            slot_elem_exec(payload, i, width, size)
        };
        elems.push(v);
        i += 1;
        assert(elems@ =~= arr_spec(data@, off as int).take(i as int));
    }
    assert(arr_spec(data@, off as int).take(size as int) =~= arr_spec(data@, off as int));
    elems
}

/// The array at `off`, or nothing when `off` is zero, misaligned or out of the data.
pub fn read_arr(data: &[u8], off: usize) -> (r: Vec<u64>)
    ensures
        r@ == arr_at(data@, off as int),
{
    if off == 0 || off % 8 != 0 || off > data.len() || data.len() - off < NODE_HEADER_SIZE {
        return Vec::new();
    }
    read_array(data, off)
}

} // verus!

verus! {

/// Slot `i` of width `w` bytes: empty past the end, cut short by the end of the payload.
pub open spec fn slot_of(p: Seq<u8>, i: int, w: int) -> Seq<u8> {
    let o = i * w;
    if o >= p.len() { Seq::empty() } else { p.subrange(o, if o + w < p.len() { o + w } else { p.len() as int }) }
}

/// A short string slot: its last byte says how much of the slot is unused.
pub open spec fn short_string(slot: Seq<u8>) -> Seq<char> {
    if slot.len() == 0 {
        Seq::empty()
    } else {
        let t = slot.last() as int;
        let l = if t < slot.len() { slot.len() - 1 - t } else { 0 };
        utf8_lossy(slot.take(l))
    }
}

/// Decodes a short string slot.
pub fn decode_short_string(slot: &[u8]) -> (r: String)
    ensures
        r@ == short_string(slot@),
{
    if slot.len() == 0 {
        return String::new();
    }
    let w = slot.len();
    let tail = slot[w - 1] as usize;
    let len = if tail < w { w - 1 - tail } else { 0 };
    from_utf8_lossy(&slot[0..len])
}

/// The strings of a multiply-encoded string array at `off` with `slot_width`-byte slots, one
/// per header element; `None` when the header is outside the data.
pub open spec fn string_array_spec(data: Seq<u8>, off: int, slot_width: int) -> Option<Seq<Seq<char>>> {
    if off + 8 > data.len() {
        None
    } else {
        let p = data.skip(off + 8);
        Some(Seq::new(header_spec(data, off).2, |i: int| short_string(slot_of(p, i, slot_width))))
    }
}

/// Reads a multiply-encoded string array (the table-name list).
pub fn read_string_array(data: &[u8], off: usize, slot_width: u8) -> (r: Option<Vec<String>>)
    ensures
        match string_array_spec(data@, off as int, slot_width as int) {
            Some(s) => r matches Some(v) && v@.len() == s.len() && forall|i: int| 0 <= i < s.len() ==> (#[trigger] v@[i])@ == s[i],
            None => r is None,
        },
{
    let (_wt, _w, size) = match node_wtype(data, off) {
        Some(h) => h,
        None => return None,
    };
    assert(data@.len() == data.len());
    let payload = &data[off + 8..data.len()];
    assert(payload@ =~= data@.skip(off + 8));
    let w = slot_width as usize;
    let mut out: Vec<String> = Vec::new();
    let mut i: usize = 0;
    while i < size
        invariant
            i <= size,
            size as nat == header_spec(data@, off as int).2,
            size < 0x1_0000_00,
            payload@ == data@.skip(off + 8),
            payload@.len() == payload.len(),
            w == slot_width as usize,
            w <= 255,
            out@.len() == i,
            forall|k: int| 0 <= k < i ==> (#[trigger] out@[k])@ == short_string(slot_of(payload@, k, w as int)),
        decreases size - i,
    {
        assert(i * w <= 0xFFFF_FFFF) by (nonlinear_arith)
            requires i < 0x1_0000_00, w <= 255;
        let o = i * w;
        let slot: &[u8] = if o >= payload.len() {
            &payload[0..0]
        } else {
            let end = if w < payload.len() - o { o + w } else { payload.len() };
            &payload[o..end]
        };
        assert(slot@ =~= slot_of(payload@, i as int, w as int));
        out.push(decode_short_string(slot));
        i += 1;
    }
    Some(out)
}

/// Index of the first zero byte, the length when there is none.
pub open spec fn first_zero(s: Seq<u8>) -> int
    decreases s.len(),
{
    if s.len() == 0 {
        0
    } else if s.last() == 0 && first_zero(s.drop_last()) == s.len() - 1 {
        s.len() - 1
    } else if first_zero(s.drop_last()) < s.len() - 1 {
        first_zero(s.drop_last())
    } else {
        s.len() as int
    }
}

/// The text of a raw-bytes node (wtype 2) up to its first zero byte.
pub open spec fn raw_string_spec(data: Seq<u8>, off: int) -> Option<Seq<char>> {
    if off + 8 > data.len() || header_spec(data, off).0 != 2 {
        None
    } else {
        let p = data.skip(off + 8);
        let l = if header_spec(data, off).2 < p.len() { header_spec(data, off).2 as int } else { p.len() as int };
        Some(utf8_lossy(p.take(first_zero(p.take(l)))))
    }
}

/// The string stored in a raw-bytes node (trailing zero dropped).
pub fn read_raw_string(data: &[u8], off: usize) -> (r: Option<String>)
    ensures
        match raw_string_spec(data@, off as int) {
            Some(s) => r matches Some(t) && t@ == s,
            None => r is None,
        },
{
    let (wtype, _w, size) = match node_wtype(data, off) {
        Some(h) => h,
        None => return None,
    };
    if wtype != 2 {
        return None;
    }
    assert(data@.len() == data.len());
    let payload = &data[off + 8..data.len()];
    assert(payload@ =~= data@.skip(off + 8));
    let len = if size < payload.len() { size } else { payload.len() };
    let mut end: usize = 0;
    while end < len && payload[end] != 0
        invariant
            end <= len <= payload@.len(),
            forall|k: int| 0 <= k < end ==> payload@[k] != 0,
        decreases len - end,
    {
        end += 1;
    }
    proof {
        lemma_first_zero(payload@.take(len as int), end as int);
    }
    assert(payload@.take(end as int) =~= payload@.subrange(0, end as int));
    Some(from_utf8_lossy(&payload[0..end]))
}

proof fn lemma_first_zero(s: Seq<u8>, e: int)
    requires
        0 <= e <= s.len(),
        forall|k: int| 0 <= k < e ==> s[k] != 0,
        e < s.len() ==> s[e] == 0,
    ensures
        first_zero(s) == e,
    decreases s.len(),
{
    if s.len() > 0 {
        if e < s.len() {
            if e == s.len() - 1 {
                lemma_first_zero(s.drop_last(), e);
            } else {
                lemma_first_zero(s.drop_last(), e);
            }
        } else {
            lemma_first_zero(s.drop_last(), e - 1);
        }
    }
}

} // verus!

verus! {

/// A stored offset as an index; offsets beyond the address space become the (unusable)
/// largest index.
pub open spec fn idx_spec(v: u64) -> int {
    if v > usize::MAX { usize::MAX as int } else { v as int }
}

pub fn idx(v: u64) -> (r: usize)
    ensures
        r as int == idx_spec(v),
{
    if v > usize::MAX as u64 { usize::MAX } else { v as usize }
}

/// First index of `want` among the names, -1 when absent.
pub open spec fn name_index(names: Seq<Seq<char>>, want: Seq<char>) -> int
    decreases names.len(),
{
    if names.len() == 0 {
        -1
    } else if name_index(names.drop_last(), want) >= 0 {
        name_index(names.drop_last(), want)
    } else if names.last() == want {
        names.len() - 1
    } else {
        -1
    }
}

/// Root reference of the table named `want`: the file's top reference leads to the group
/// array (table names, table references); the table array's third entry is the cluster root.
pub open spec fn locate_spec(data: Seq<u8>, want: Seq<char>) -> Option<int> {
    if data.len() < 8 {
        None
    } else {
        let group = arr_at(data, idx_spec(le_value(data.take(8)) as u64));
        if group.len() < 2 {
            None
        } else {
            match string_array_spec(data, idx_spec(group[0]), 64) {
                None => None,
                Some(names) => {
                    let refs = arr_at(data, idx_spec(group[1]));
                    let i = name_index(names, want);
                    if i < 0 || i >= refs.len() {
                        None
                    } else {
                        let tarr = arr_at(data, idx_spec(refs[i]));
                        if tarr.len() < 3 || tarr[2] == 0 { None } else { Some(idx_spec(tarr[2])) }
                    }
                },
            }
        }
    }
}

proof fn lemma_name_index(names: Seq<Seq<char>>, want: Seq<char>, i: int)
    requires
        -1 <= i < names.len(),
        i >= 0 ==> names[i] == want,
        forall|j: int| 0 <= j < (if i < 0 { names.len() as int } else { i }) ==> names[j] != want,
    ensures
        name_index(names, want) == i,
    decreases names.len(),
{
    if names.len() > 0 {
        if i == names.len() - 1 {
            lemma_name_index(names.drop_last(), want, -1);
        } else {
            lemma_name_index(names.drop_last(), want, i);
        }
    }
}

/// Cluster root of the table named `want`.
pub fn locate_table(data: &[u8], want: &str) -> (r: Option<usize>)
    ensures
        match locate_spec(data@, want@) {
            Some(x) => r matches Some(v) && v as int == x,
            None => r is None,
        },
{
    if data.len() < 8 {
        return None;
    }
    let top = le_bytes(data, 0, 8);
    assert(data@.subrange(0, 8) =~= data@.take(8));
    let group = read_arr(data, idx(top));
    if group.len() < 2 {
        return None;
    }
    let names = match read_string_array(data, idx(group[0]), 64) {
        Some(n) => n,
        None => return None,
    };
    let ghost nv = match string_array_spec(data@, idx_spec(group@[0]), 64) { Some(s) => s, None => Seq::empty() };
    let table_refs = read_arr(data, idx(group[1]));
    let mut i: usize = 0;
    while i < names.len()
        invariant
            i <= names.len() == nv.len(),
            forall|k: int| 0 <= k < names@.len() ==> (#[trigger] names@[k])@ == nv[k],
            forall|j: int| 0 <= j < i ==> nv[j] != want@,
        ensures
            i <= names.len(),
            i < names.len() ==> nv[i as int] == want@,
            forall|j: int| 0 <= j < i ==> nv[j] != want@,
        decreases names.len() - i,
    {
        if str_eq(names[i].as_str(), want) {
            break;
        }
        i += 1;
    }
    proof {
        if i < names.len() {
            lemma_name_index(nv, want@, i as int);
        } else {
            lemma_name_index(nv, want@, -1);
        }
    }
    if i >= names.len() || i >= table_refs.len() {
        return None;
    }
    let tarr = read_arr(data, idx(table_refs[i]));
    if tarr.len() < 3 || tarr[2] == 0 {
        return None;
    }
    Some(idx(tarr[2]))
}

} // verus!

verus! {

/// A leaf cluster of a table: its entry array and its row count.
pub struct Leaf {
    pub entries: Vec<u64>,
    pub rows: usize,
}

pub open spec fn leaf_view(l: Leaf) -> (Seq<u64>, nat) {
    (l.entries@, l.rows as nat)
}

pub open spec fn leaf_views(v: Seq<Leaf>) -> Seq<(Seq<u64>, nat)> {
    v.map_values(|l: Leaf| leaf_view(l))
}

/// Rows of a leaf: an odd first entry holds twice the count plus one (clamped to the file
/// size), an even one references the key array.
pub open spec fn leaf_rows_spec(data: Seq<u8>, leaf: Seq<u64>) -> nat {
    if leaf.len() == 0 {
        0
    } else if leaf[0] % 2 == 1 {
        if (leaf[0] / 2) < data.len() { (leaf[0] / 2) as nat } else { data.len() }
    } else {
        arr_at(data, idx_spec(leaf[0])).len()
    }
}

/// Row count of a leaf cluster.
pub fn leaf_rows(data: &[u8], leaf: &[u64]) -> (r: usize)
    ensures
        r as nat == leaf_rows_spec(data@, leaf@),
{
    if leaf.len() == 0 {
        return 0;
    }
    let tag = leaf[0];
    if tag & 1 != 0 {
        assert(tag & 1 != 0 <==> tag % 2 == 1) by (bit_vector);
        assert(tag >> 1 == tag / 2) by (bit_vector);
        let half = tag >> 1;
        if half < data.len() as u64 { half as usize } else { data.len() }
    } else {
        assert(tag & 1 != 0 <==> tag % 2 == 1) by (bit_vector);
        read_arr(data, idx(tag)).len()
    }
}

/// Leaves reached from the children of an inner root: references only, empty leaves dropped.
pub open spec fn child_leaves(data: Seq<u8>, cs: Seq<u64>) -> Seq<(Seq<u64>, nat)>
    decreases cs.len(),
{
    if cs.len() == 0 {
        Seq::empty()
    } else {
        let prev = child_leaves(data, cs.drop_last());
        let c = cs.last();
        if is_ref_spec(c, data.len()) && leaf_rows_spec(data, arr_at(data, idx_spec(c))) > 0 {
            prev.push((arr_at(data, idx_spec(c)), leaf_rows_spec(data, arr_at(data, idx_spec(c)))))
        } else {
            prev
        }
    }
}

/// All leaf clusters of a table in row order: the root itself when it is a leaf, else the
/// leaves its entries from the fourth on reference.
pub open spec fn leaves_spec(data: Seq<u8>, root_ref: int) -> Seq<(Seq<u64>, nat)> {
    let root = arr_at(data, root_ref);
    if root.len() == 0 {
        Seq::empty()
    } else if !(root_ref + 4 < data.len() && data[root_ref + 4] >= 128) {
        if leaf_rows_spec(data, root) > 0 { seq![(root, leaf_rows_spec(data, root))] } else { Seq::empty() }
    } else if root.len() <= 3 {
        Seq::empty()
    } else {
        child_leaves(data, root.skip(3))
    }
}

/// Leaf clusters of the table rooted at `root_ref` (B+-tree child order is row order).
pub fn collect_leaves(data: &[u8], root_ref: usize) -> (r: Vec<Leaf>)
    ensures
        leaf_views(r@) == leaves_spec(data@, root_ref as int),
{
    let root = read_arr(data, root_ref);
    if root.len() == 0 {
        return Vec::new();
    }
    assert(data@.len() == data.len());
    let inner = root_ref + 4 < data.len() && data[root_ref + 4] & 0x80 != 0;
    if root_ref + 4 < data.len() {
        let f = data[root_ref + 4];
        assert(f & 0x80 != 0 <==> f >= 128) by (bit_vector);
    }
    if !inner {
        let rows = leaf_rows(data, root.as_slice());
        if rows > 0 {
            let mut out: Vec<Leaf> = Vec::new();
            let ghost rv = root@;
            out.push(Leaf { entries: root, rows });
            assert(leaf_views(out@) =~= seq![(rv, rows as nat)]);
            return out;
        } else {
            return Vec::new();
        }
    }
    let mut out: Vec<Leaf> = Vec::new();
    if root.len() <= 3 {
        return out;
    }
    let mut i: usize = 3;
    let ghost cs = root@.skip(3);
    assert(cs.take(0) =~= Seq::<u64>::empty());
    while i < root.len()
        invariant
            3 <= i <= root.len(),
            cs == root@.skip(3),
            leaf_views(out@) == child_leaves(data@, cs.take(i - 3)),
        decreases root.len() - i,
    {
        let child = root[i];
        assert(cs.take(i - 2).drop_last() =~= cs.take(i - 3));
        assert(cs.take(i - 2).last() == child);
        if is_ref(child, data) {
            let leaf = read_arr(data, idx(child));
            let rows = leaf_rows(data, leaf.as_slice());
            if rows > 0 {
                let ghost before = leaf_views(out@);
                let ghost lv = leaf@;
                out.push(Leaf { entries: leaf, rows });
                assert(leaf_views(out@) =~= before.push((lv, rows as nat)));
            }
        }
        i += 1;
    }
    assert(cs.take(root.len() - 3) =~= cs);
    out
}

} // verus!

verus! {

/// Entry `entry` of a leaf, 0 when the leaf has fewer entries.
pub open spec fn entry_of(leaf: Seq<u64>, entry: int) -> u64 {
    if 0 <= entry < leaf.len() { leaf[entry] } else { 0 }
}

/// Integer column part of one leaf: the referenced array, or an inline scalar (zeros for every
/// row when it is 0, the value alone otherwise).
pub open spec fn leaf_ints(data: Seq<u8>, e: u64, rows: nat) -> Seq<u64> {
    if !is_ref_spec(e, data.len()) {
        if e == 0 { Seq::new(rows, |i: int| 0u64) } else { seq![e] }
    } else {
        arr_at(data, idx_spec(e))
    }
}

/// Raw-bits column part (doubles and floats): the referenced array, zeros otherwise.
pub open spec fn leaf_bits(data: Seq<u8>, e: u64, rows: nat) -> Seq<u64> {
    if !is_ref_spec(e, data.len()) { Seq::new(rows, |i: int| 0u64) } else { arr_at(data, idx_spec(e)) }
}

/// An integer column across all leaves.
pub open spec fn col_ints(data: Seq<u8>, leaves: Seq<(Seq<u64>, nat)>, entry: int) -> Seq<u64>
    decreases leaves.len(),
{
    if leaves.len() == 0 {
        Seq::empty()
    } else {
        col_ints(data, leaves.drop_last(), entry) + leaf_ints(data, entry_of(leaves.last().0, entry), leaves.last().1)
    }
}

/// A raw-bits column across all leaves.
pub open spec fn col_bits(data: Seq<u8>, leaves: Seq<(Seq<u64>, nat)>, entry: int) -> Seq<u64>
    decreases leaves.len(),
{
    if leaves.len() == 0 {
        Seq::empty()
    } else {
        col_bits(data, leaves.drop_last(), entry) + leaf_bits(data, entry_of(leaves.last().0, entry), leaves.last().1)
    }
}

fn zeros(n: usize) -> (r: Vec<u64>)
    ensures
        r@ == Seq::new(n as nat, |i: int| 0u64),
{
    let mut v: Vec<u64> = Vec::new();
    let mut i: usize = 0;
    while i < n
        invariant
            i <= n,
            v@ == Seq::new(i as nat, |k: int| 0u64),
        decreases n - i,
    {
        v.push(0);
        i += 1;
        assert(v@ =~= Seq::new(i as nat, |k: int| 0u64));
    }
    v
}

fn append_u64(dst: &mut Vec<u64>, src: Vec<u64>)
    ensures
        final(dst)@ == old(dst)@ + src@,
{
    let mut s = src;
    dst.append(&mut s);
}

/// Integer column `entry` of a table, all leaves flattened.
pub fn read_col_ints(data: &[u8], leaves: &Vec<Leaf>, entry: usize) -> (r: Vec<u64>)
    ensures
        r@ == col_ints(data@, leaf_views(leaves@), entry as int),
{
    let mut acc: Vec<u64> = Vec::new();
    let mut k: usize = 0;
    while k < leaves.len()
        invariant
            k <= leaves.len(),
            acc@ == col_ints(data@, leaf_views(leaves@).take(k as int), entry as int),
        decreases leaves.len() - k,
    {
        let ghost lv = leaf_views(leaves@);
        assert(lv.take(k + 1).drop_last() =~= lv.take(k as int));
        assert(lv.take(k + 1).last() == leaf_view(leaves@[k as int]));
        let leaf = &leaves[k];
        let e: u64 = if entry < leaf.entries.len() { leaf.entries[entry] } else { 0 };
        let part: Vec<u64> = if !is_ref(e, data) {
            if e == 0 {
                zeros(leaf.rows)
            } else {
                let mut one: Vec<u64> = Vec::new();
                one.push(e);
                one
            }
        } else {
            read_arr(data, idx(e))
        };
        append_u64(&mut acc, part);
        k += 1;
    }
    assert(leaf_views(leaves@).take(leaves.len() as int) =~= leaf_views(leaves@));
    acc
}

/// Raw-bits column `entry` of a table (doubles, or floats in the low 32 bits).
pub fn read_col_bits(data: &[u8], leaves: &Vec<Leaf>, entry: usize) -> (r: Vec<u64>)
    ensures
        r@ == col_bits(data@, leaf_views(leaves@), entry as int),
{
    let mut acc: Vec<u64> = Vec::new();
    let mut k: usize = 0;
    while k < leaves.len()
        invariant
            k <= leaves.len(),
            acc@ == col_bits(data@, leaf_views(leaves@).take(k as int), entry as int),
        decreases leaves.len() - k,
    {
        let ghost lv = leaf_views(leaves@);
        assert(lv.take(k + 1).drop_last() =~= lv.take(k as int));
        assert(lv.take(k + 1).last() == leaf_view(leaves@[k as int]));
        let leaf = &leaves[k];
        let e: u64 = if entry < leaf.entries.len() { leaf.entries[entry] } else { 0 };
        let part: Vec<u64> = if !is_ref(e, data) { zeros(leaf.rows) } else { read_arr(data, idx(e)) };
        append_u64(&mut acc, part);
        k += 1;
    }
    assert(leaf_views(leaves@).take(leaves.len() as int) =~= leaf_views(leaves@));
    acc
}

/// A 64-bit column value read as signed (two's complement).
pub fn sign_extend_i64(raw: u64) -> (r: i64)
    ensures
        r == raw as i64,
{
    raw as i64
}

/// The low byte of a column value read as a signed 8-bit number (253 is -3).
pub fn sign_extend_i8(raw: u64) -> (r: i64)
    ensures
        r == ((raw % 256) as u8) as i8 as i64,
{
    let b = (raw & 0xFF) as u8;
    assert(raw & 0xFF == raw % 256) by (bit_vector);
    b as i8 as i64
}

/// The low 32 bits of a column value read as a signed number (4294967295 is -1).
pub fn sign_extend_i32(raw: u64) -> (r: i64)
    ensures
        r == (raw as u32) as i32 as i64,
{
    (raw as u32) as i32 as i64
}

} // verus!

verus! {

/// The raw string a per-row reference leads to, empty when it leads to none.
pub open spec fn ref_string(data: Seq<u8>, v: u64) -> Seq<char> {
    match raw_string_spec(data, idx_spec(v)) {
        Some(s) => s,
        None => Seq::empty(),
    }
}

/// Every one of the first `rows` elements references a raw string.
pub open spec fn looks_per_row(data: Seq<u8>, elems: Seq<u64>, rows: nat) -> bool {
    elems.len() >= rows && rows > 0
        && forall|i: int| 0 <= i < rows ==> elems[i] != 0 && (#[trigger] raw_string_spec(data, idx_spec(elems[i]))) is Some
}

/// Number of the first `n` elements that reference a raw string.
pub open spec fn ref_hits(data: Seq<u8>, elems: Seq<u64>, n: int) -> nat
    decreases n,
{
    if n <= 0 {
        0
    } else {
        ref_hits(data, elems, n - 1) + if raw_string_spec(data, idx_spec(elems[n - 1])) is Some { 1nat } else { 0nat }
    }
}

/// Row `r` of a compact string column: the blob bytes between the previous row's end offset and
/// this row's end offset (minus its terminator), clamped to the blob.
pub open spec fn compact_string(blob: Seq<u8>, offsets: Seq<u64>, r: int) -> Seq<char> {
    let start0 = if r == 0 { 0 } else if r - 1 < offsets.len() { idx_spec(offsets[r - 1]) } else { 0 };
    let end0 = if r < offsets.len() {
        if idx_spec(offsets[r]) == 0 { 0 } else { idx_spec(offsets[r]) - 1 }
    } else {
        start0
    };
    let end = if end0 < blob.len() { end0 } else { blob.len() as int };
    let start = if start0 < end { start0 } else { end };
    utf8_lossy(blob.subrange(start, end))
}

/// The bytes of the raw node at `b`: its payload cut to its size and the file.
pub open spec fn blob_of(data: Seq<u8>, b: int) -> Seq<u8> {
    let s = b + 8;
    let e = s + header_spec(data, b).2;
    data.subrange(s, if e < data.len() { e } else { data.len() as int })
}

/// A string column part: compact `[offsets, blob]` strings, per-row raw-string references, or
/// short-string slots, recognised in that order; empty strings when none applies.
pub open spec fn strings_spec(data: Seq<u8>, off: int, rows: nat) -> Seq<Seq<char>> {
    let none = Seq::new(rows, |i: int| Seq::<char>::empty());
    let elems = arr_at(data, off);
    let h = header_spec(data, off);
    if elems.len() == 0 {
        none
    } else if !looks_per_row(data, elems, rows) && (elems.len() == 2 || elems.len() == 3) && h.0 == 0
        && is_ref_spec(elems[0], data.len()) && raw_string_spec(data, idx_spec(elems[1])) is Some {
        let offsets = arr_at(data, idx_spec(elems[0]));
        let blob = blob_of(data, idx_spec(elems[1]));
        Seq::new(rows, |r: int| compact_string(blob, offsets, r))
    } else if elems.len() >= rows && (forall|i: int| 0 <= i < elems.len() ==> elems[i] == 0 || is_ref_spec(#[trigger] elems[i], data.len()))
        && ref_hits(data, elems, rows as int) > 0 && ref_hits(data, elems, rows as int) * 2 >= rows {
        Seq::new(rows, |i: int| ref_string(data, elems[i]))
    } else if h.0 == 1 && h.1 > 0 {
        let count = if h.2 < rows { h.2 } else { rows };
        Seq::new(rows, |i: int| if i < count { short_string(slot_of(data.skip(off + 8), i, h.1 as int)) } else { Seq::<char>::empty() })
    } else {
        none
    }
}


proof fn lemma_views_push(v: Seq<String>, s: String)
    ensures
        string_views(v.push(s)) == string_views(v).push(s@),
{
    assert(string_views(v.push(s)) =~= string_views(v).push(s@));
}

fn empty_strings(n: usize) -> (r: Vec<String>)
    ensures
        string_views(r@) == Seq::new(n as nat, |i: int| Seq::<char>::empty()),
{
    let mut v: Vec<String> = Vec::new();
    let mut i: usize = 0;
    while i < n
        invariant
            i <= n,
            string_views(v@) == Seq::new(i as nat, |k: int| Seq::<char>::empty()),
        decreases n - i,
    {
        let ghost before = v@;
        let e = String::new();
        let ghost ev = e;
        v.push(e);
        proof {
            lemma_views_push(before, ev);
        }
        i += 1;
        assert(string_views(v@) =~= Seq::new(i as nat, |k: int| Seq::<char>::empty()));
    }
    v
}

fn looks_per_row_exec(data: &[u8], elems: &Vec<u64>, rows: usize) -> (b: bool)
    ensures
        b == looks_per_row(data@, elems@, rows as nat),
{
    if !(elems.len() >= rows && rows > 0) {
        return false;
    }
    let mut i: usize = 0;
    while i < rows
        invariant
            i <= rows <= elems.len(),
            forall|k: int| 0 <= k < i ==> elems@[k] != 0 && (#[trigger] raw_string_spec(data@, idx_spec(elems@[k]))) is Some,
        decreases rows - i,
    {
        let v = elems[i];
        if v == 0 {
            assert(!(elems@[i as int] != 0 && raw_string_spec(data@, idx_spec(elems@[i as int])) is Some));
            return false;
        }
        if read_raw_string(data, idx(v)).is_none() {
            assert(!(elems@[i as int] != 0 && raw_string_spec(data@, idx_spec(elems@[i as int])) is Some));
            return false;
        }
        i += 1;
    }
    true
}

fn compact_strings(data: &[u8], offs_ref: u64, blob_ref: u64, rows: usize) -> (r: Vec<String>)
    requires
        raw_string_spec(data@, idx_spec(blob_ref)) is Some,
    ensures
        string_views(r@) == Seq::new(rows as nat, |k: int| compact_string(blob_of(data@, idx_spec(blob_ref)), arr_at(data@, idx_spec(offs_ref)), k)),
{
    let offsets = read_arr(data, idx(offs_ref));
    let b = idx(blob_ref);
    let bsize = match node_wtype(data, b) {
        Some((_t, _w, s)) => s,
        None => 0,
    };
    assert(data@.len() == data.len());
    let blob_start = b + 8;
    let blob_end = if bsize < data.len() - blob_start { blob_start + bsize } else { data.len() };
    let blob = &data[blob_start..blob_end];
    let ghost bl = blob_of(data@, idx_spec(blob_ref));
    assert(blob@ =~= bl);
    let mut out: Vec<String> = Vec::new();
    let mut r: usize = 0;
    while r < rows
        invariant
            r <= rows,
            blob@ == bl,
            blob@.len() == blob.len(),
            offsets@ == arr_at(data@, idx_spec(offs_ref)),
            string_views(out@) == Seq::new(r as nat, |k: int| compact_string(bl, offsets@, k)),
        decreases rows - r,
    {
        let start0: usize = if r == 0 { 0 } else if r - 1 < offsets.len() { idx(offsets[r - 1]) } else { 0 };
        let end0: usize = if r < offsets.len() {
            let o = idx(offsets[r]);
            if o == 0 { 0 } else { o - 1 }
        } else {
            start0
        };
        let end = if end0 < blob.len() { end0 } else { blob.len() };
        let start = if start0 < end { start0 } else { end };
        let s = from_utf8_lossy(&blob[start..end]);
        assert(s@ == compact_string(bl, offsets@, r as int));
        let ghost before = out@;
        let ghost sv = s;
        out.push(s);
        proof {
            lemma_views_push(before, sv);
        }
        r += 1;
        assert(string_views(out@) =~= Seq::new(r as nat, |k: int| compact_string(bl, offsets@, k)));
    }
    out
}

fn all_refs_exec(data: &[u8], elems: &Vec<u64>) -> (b: bool)
    ensures
        b == forall|i: int| 0 <= i < elems@.len() ==> elems@[i] == 0 || is_ref_spec(#[trigger] elems@[i], data@.len()),
{
    let mut i: usize = 0;
    while i < elems.len()
        invariant
            i <= elems.len(),
            forall|k: int| 0 <= k < i ==> elems@[k] == 0 || is_ref_spec(#[trigger] elems@[k], data@.len()),
        decreases elems.len() - i,
    {
        if !(elems[i] == 0 || is_ref(elems[i], data)) {
            return false;
        }
        i += 1;
    }
    true
}

fn per_row_strings(data: &[u8], elems: &Vec<u64>, rows: usize) -> (r: (Vec<String>, usize))
    requires
        rows <= elems.len(),
    ensures
        string_views(r.0@) == Seq::new(rows as nat, |i: int| ref_string(data@, elems@[i])),
        r.1 as nat == ref_hits(data@, elems@, rows as int),
        r.1 <= rows,
{
    let mut tmp: Vec<String> = Vec::new();
    let mut hits: usize = 0;
    let mut i: usize = 0;
    while i < rows
        invariant
            i <= rows <= elems.len(),
            hits <= i,
            hits as nat == ref_hits(data@, elems@, i as int),
            string_views(tmp@) == Seq::new(i as nat, |k: int| ref_string(data@, elems@[k])),
        decreases rows - i,
    {
        let ghost before = tmp@;
        let s = match read_raw_string(data, idx(elems[i])) {
            Some(s) => {
                hits += 1;
                s
            },
            None => String::new(),
        };
        let ghost sv = s;
        tmp.push(s);
        proof {
            lemma_views_push(before, sv);
        }
        i += 1;
        assert(string_views(tmp@) =~= Seq::new(i as nat, |k: int| ref_string(data@, elems@[k])));
    }
    (tmp, hits)
}

fn slot_strings(data: &[u8], off: usize, width: u8, size: usize, rows: usize) -> (r: Vec<String>)
    requires
        off + 8 <= data@.len(),
        width > 0,
        size < 0x1_0000_00,
    ensures
        string_views(r@) == Seq::new(rows as nat, |i: int| if i < (if size < rows { size } else { rows }) {
            short_string(slot_of(data@.skip(off + 8), i, width as int))
        } else {
            Seq::<char>::empty()
        }),
{
    assert(data@.len() == data.len());
    let payload = &data[off + 8..data.len()];
    assert(payload@ =~= data@.skip(off + 8));
    let count = if size < rows { size } else { rows };
    let w = width as usize;
    let mut out: Vec<String> = Vec::new();
    let mut i: usize = 0;
    while i < rows
        invariant
            i <= rows,
            count <= size < 0x1_0000_00,
            count == (if size < rows { size } else { rows }),
            w == width as usize,
            w >= 1,
            w <= 255,
            payload@ == data@.skip(off + 8),
            payload@.len() == payload.len(),
            string_views(out@) == Seq::new(i as nat, |k: int| if k < count { short_string(slot_of(payload@, k, w as int)) } else { Seq::<char>::empty() }),
        decreases rows - i,
    {
        if i < count {
            assert(i * w <= 0xFFFF_FFFF) by (nonlinear_arith)
                requires i < 0x1_0000_00, w <= 255;
            let o = i * w;
            let slot: &[u8] = if o >= payload.len() {
                &payload[0..0]
            } else {
                let end = if w < payload.len() - o { o + w } else { payload.len() };
                &payload[o..end]
            };
            assert(slot@ =~= slot_of(payload@, i as int, w as int));
            let ghost before = out@;
            let t = decode_short_string(slot);
            let ghost tv = t;
            out.push(t);
            proof {
                lemma_views_push(before, tv);
            }
        } else {
            let ghost before = out@;
            let t = String::new();
            let ghost tv = t;
            out.push(t);
            proof {
                lemma_views_push(before, tv);
            }
        }
        i += 1;
        assert(string_views(out@) =~= Seq::new(i as nat, |k: int| if k < count { short_string(slot_of(payload@, k, w as int)) } else { Seq::<char>::empty() }));
    }
    out
}

/// Decodes one leaf's string column part (see `strings_spec`).
pub fn decode_strings(data: &[u8], off: usize, rows: usize) -> (r: Vec<String>)
    ensures
        string_views(r@) == strings_spec(data@, off as int, rows as nat),
{
    let elems = read_arr(data, off);
    if elems.len() == 0 {
        return empty_strings(rows);
    }
    let (wtype, width, size) = match node_wtype(data, off) {
        Some(h) => h,
        None => (0, 0, 0),
    };
    let per_row = looks_per_row_exec(data, &elems, rows);
    if !per_row && (elems.len() == 2 || elems.len() == 3) && wtype == 0 && is_ref(elems[0], data) {
        if read_raw_string(data, idx(elems[1])).is_some() {
            return compact_strings(data, elems[0], elems[1], rows);
        }
    }
    if elems.len() >= rows && all_refs_exec(data, &elems) {
        let (tmp, hits) = per_row_strings(data, &elems, rows);
        if hits > 0 && hits >= rows - hits {
            return tmp;
        }
    }
    if wtype == 1 && width > 0 {
        return slot_strings(data, off, width, size, rows);
    }
    empty_strings(rows)
}

} // verus!

verus! {

/// String column part of one leaf: decoded strings for a reference, empty strings otherwise.
pub open spec fn leaf_strs(data: Seq<u8>, e: u64, rows: nat) -> Seq<Seq<char>> {
    if !is_ref_spec(e, data.len()) { Seq::new(rows, |i: int| Seq::<char>::empty()) } else { strings_spec(data, idx_spec(e), rows) }
}

/// A string column across all leaves.
pub open spec fn col_strs(data: Seq<u8>, leaves: Seq<(Seq<u64>, nat)>, entry: int) -> Seq<Seq<char>>
    decreases leaves.len(),
{
    if leaves.len() == 0 {
        Seq::empty()
    } else {
        col_strs(data, leaves.drop_last(), entry) + leaf_strs(data, entry_of(leaves.last().0, entry), leaves.last().1)
    }
}

fn append_strings(dst: &mut Vec<String>, src: Vec<String>)
    ensures
        string_views(final(dst)@) == string_views(old(dst)@) + string_views(src@),
{
    let mut s = src;
    let ghost a = dst@;
    let ghost b = s@;
    dst.append(&mut s);
    assert(string_views(dst@) =~= string_views(a) + string_views(b));
}

/// String column `entry` of a table, all leaves flattened.
pub fn read_col_strs(data: &[u8], leaves: &Vec<Leaf>, entry: usize) -> (r: Vec<String>)
    ensures
        string_views(r@) == col_strs(data@, leaf_views(leaves@), entry as int),
{
    let mut acc: Vec<String> = Vec::new();
    let mut k: usize = 0;
    while k < leaves.len()
        invariant
            k <= leaves.len(),
            string_views(acc@) == col_strs(data@, leaf_views(leaves@).take(k as int), entry as int),
        decreases leaves.len() - k,
    {
        let ghost lv = leaf_views(leaves@);
        assert(lv.take(k + 1).drop_last() =~= lv.take(k as int));
        assert(lv.take(k + 1).last() == leaf_view(leaves@[k as int]));
        let leaf = &leaves[k];
        let e: u64 = if entry < leaf.entries.len() { leaf.entries[entry] } else { 0 };
        let part: Vec<String> = if !is_ref(e, data) { empty_strings(leaf.rows) } else { decode_strings(data, idx(e), leaf.rows) };
        append_strings(&mut acc, part);
        k += 1;
    }
    assert(leaf_views(leaves@).take(leaves.len() as int) =~= leaf_views(leaves@));
    acc
}

/// List column part of one leaf: per row, the array its reference leads to (empty when none).
pub open spec fn leaf_lists(data: Seq<u8>, e: u64, rows: nat) -> Seq<Seq<u64>> {
    let per_row = if is_ref_spec(e, data.len()) { arr_at(data, idx_spec(e)) } else { Seq::new(rows, |i: int| 0u64) };
    Seq::new(rows, |i: int| if i < per_row.len() && is_ref_spec(per_row[i], data.len()) { arr_at(data, idx_spec(per_row[i])) } else { Seq::<u64>::empty() })
}

/// A list column (one array of links per row) across all leaves.
pub open spec fn col_lists(data: Seq<u8>, leaves: Seq<(Seq<u64>, nat)>, entry: int) -> Seq<Seq<u64>>
    decreases leaves.len(),
{
    if leaves.len() == 0 {
        Seq::empty()
    } else {
        col_lists(data, leaves.drop_last(), entry) + leaf_lists(data, entry_of(leaves.last().0, entry), leaves.last().1)
    }
}

pub open spec fn vec_views(v: Seq<Vec<u64>>) -> Seq<Seq<u64>> {
    v.map_values(|x: Vec<u64>| x@)
}

/// List column `entry` of a table (Files / Beatmaps links), one array per row.
pub fn read_list_col(data: &[u8], leaves: &Vec<Leaf>, entry: usize) -> (r: Vec<Vec<u64>>)
    ensures
        vec_views(r@) == col_lists(data@, leaf_views(leaves@), entry as int),
{
    let mut out: Vec<Vec<u64>> = Vec::new();
    let mut k: usize = 0;
    while k < leaves.len()
        invariant
            k <= leaves.len(),
            vec_views(out@) == col_lists(data@, leaf_views(leaves@).take(k as int), entry as int),
        decreases leaves.len() - k,
    {
        let ghost lv = leaf_views(leaves@);
        assert(lv.take(k + 1).drop_last() =~= lv.take(k as int));
        assert(lv.take(k + 1).last() == leaf_view(leaves@[k as int]));
        let leaf = &leaves[k];
        let e: u64 = if entry < leaf.entries.len() { leaf.entries[entry] } else { 0 };
        let per_row: Vec<u64> = if is_ref(e, data) { read_arr(data, idx(e)) } else { zeros(leaf.rows) };
        let ghost base = vec_views(out@);
        let ghost part = leaf_lists(data@, e, leaf.rows as nat);
        let mut i: usize = 0;
        while i < leaf.rows
            invariant
                i <= leaf.rows,
                part == leaf_lists(data@, e, leaf.rows as nat),
                per_row@ == (if is_ref_spec(e, data@.len()) { arr_at(data@, idx_spec(e)) } else { Seq::new(leaf.rows as nat, |j: int| 0u64) }),
                vec_views(out@) == base + part.take(i as int),
            decreases leaf.rows - i,
        {
            let item: Vec<u64> = if i < per_row.len() && is_ref(per_row[i], data) { read_arr(data, idx(per_row[i])) } else { Vec::new() };
            let ghost iv = item@;
            let ghost before = out@;
            out.push(item);
            assert(vec_views(out@) =~= vec_views(before).push(iv));
            i += 1;
            assert(part.take(i as int) =~= part.take(i - 1).push(part[i - 1]));
        }
        assert(part.take(leaf.rows as int) =~= part);
        k += 1;
    }
    assert(leaf_views(leaves@).take(leaves.len() as int) =~= leaf_views(leaves@));
    out
}

/// A timestamp in seconds, or none for Realm's null markers (0, 0x7FFFFFFF, 0xFFFFFFFF or
/// negative).
pub open spec fn stamp_of(raw: u64) -> Option<i64> {
    let s = raw as i64;
    if s > 0 && s != 0x7FFF_FFFF && s != 0xFFFF_FFFF { Some(s) } else { None }
}

/// Timestamp part of one leaf: the entry references a [seconds, nanoseconds] pair.
pub open spec fn leaf_stamps(data: Seq<u8>, e: u64, rows: nat) -> Seq<Option<i64>> {
    let pair = arr_at(data, idx_spec(e));
    let secs = if pair.len() > 0 && is_ref_spec(pair[0], data.len()) { arr_at(data, idx_spec(pair[0])) } else { Seq::new(rows, |i: int| 0u64) };
    Seq::new(rows, |i: int| stamp_of(if i < secs.len() { secs[i] } else { 0 }))
}

/// A timestamp column across all leaves.
pub open spec fn col_stamps(data: Seq<u8>, leaves: Seq<(Seq<u64>, nat)>, entry: int) -> Seq<Option<i64>>
    decreases leaves.len(),
{
    if leaves.len() == 0 {
        Seq::empty()
    } else {
        col_stamps(data, leaves.drop_last(), entry) + leaf_stamps(data, entry_of(leaves.last().0, entry), leaves.last().1)
    }
}

/// Timestamp column `entry` in epoch seconds per row (`None` for the null markers).
pub fn read_timestamp_secs(data: &[u8], leaves: &Vec<Leaf>, entry: usize) -> (r: Vec<Option<i64>>)
    ensures
        r@ == col_stamps(data@, leaf_views(leaves@), entry as int),
{
    let mut out: Vec<Option<i64>> = Vec::new();
    let mut k: usize = 0;
    while k < leaves.len()
        invariant
            k <= leaves.len(),
            out@ == col_stamps(data@, leaf_views(leaves@).take(k as int), entry as int),
        decreases leaves.len() - k,
    {
        let ghost lv = leaf_views(leaves@);
        assert(lv.take(k + 1).drop_last() =~= lv.take(k as int));
        assert(lv.take(k + 1).last() == leaf_view(leaves@[k as int]));
        let leaf = &leaves[k];
        let e: u64 = if entry < leaf.entries.len() { leaf.entries[entry] } else { 0 };
        let pair = read_arr(data, idx(e));
        let secs: Vec<u64> = if pair.len() > 0 && is_ref(pair[0], data) { read_arr(data, idx(pair[0])) } else { zeros(leaf.rows) };
        let ghost base = out@;
        let ghost part = leaf_stamps(data@, e, leaf.rows as nat);
        let mut i: usize = 0;
        while i < leaf.rows
            invariant
                i <= leaf.rows,
                part == leaf_stamps(data@, e, leaf.rows as nat),
                secs@ == (if arr_at(data@, idx_spec(e)).len() > 0 && is_ref_spec(arr_at(data@, idx_spec(e))[0], data@.len()) {
                    arr_at(data@, idx_spec(arr_at(data@, idx_spec(e))[0]))
                } else {
                    Seq::new(leaf.rows as nat, |j: int| 0u64)
                }),
                out@ == base + part.take(i as int),
            decreases leaf.rows - i,
        {
            let raw: u64 = if i < secs.len() { secs[i] } else { 0 };
            let s = sign_extend_i64(raw);
            let valid = s > 0 && s != 0x7FFF_FFFF && s != 0xFFFF_FFFF;
            out.push(if valid { Some(s) } else { None });
            i += 1;
            assert(out@ =~= base + part.take(i as int));
        }
        assert(part.take(leaf.rows as int) =~= part);
        k += 1;
    }
    assert(leaf_views(leaves@).take(leaves.len() as int) =~= leaf_views(leaves@));
    out
}

} // verus!

verus! {

use crate::model::GameMode;

/// Game mode of a ruleset short name (ASCII case ignored): taiko, fruits or catch, mania,
/// anything else osu!.
pub open spec fn mode_spec(s: Seq<char>) -> GameMode {
    if eq_ignore_ascii_case(s, "taiko"@) {
        GameMode::Taiko
    } else if eq_ignore_ascii_case(s, "fruits"@) || eq_ignore_ascii_case(s, "catch"@) {
        GameMode::Catch
    } else if eq_ignore_ascii_case(s, "mania"@) {
        GameMode::Mania
    } else {
        GameMode::Osu
    }
}

fn eq_ic(s: &Vec<char>, t: &str) -> (b: bool)
    ensures
        b == eq_ignore_ascii_case(s@, t@),
{
    let tv = chars_of(t);
    assert(s@.subrange(0, s.len() as int) =~= s@);
    eq_ignore_case_range(s, 0, s.len(), &tv)
}

/// Game mode of a ruleset short name.
/// Lazer's ruleset short names, case ignored: `osu` is osu!standard, `taiko` osu!taiko,
/// `fruits` (or `catch`) osu!catch, `mania` osu!mania.
pub proof fn ruleset_short_names(s: Seq<char>)
    ensures
        eq_ignore_ascii_case(s, "osu"@) ==> mode_spec(s) == GameMode::Osu,
        eq_ignore_ascii_case(s, "taiko"@) ==> mode_spec(s) == GameMode::Taiko,
        eq_ignore_ascii_case(s, "fruits"@) ==> mode_spec(s) == GameMode::Catch,
        eq_ignore_ascii_case(s, "catch"@) ==> mode_spec(s) == GameMode::Catch,
        eq_ignore_ascii_case(s, "mania"@) ==> mode_spec(s) == GameMode::Mania,
{
    reveal_strlit("osu");
    reveal_strlit("taiko");
    reveal_strlit("fruits");
    reveal_strlit("catch");
    reveal_strlit("mania");
    if eq_ignore_ascii_case(s, "catch"@) {
        assert(crate::text::ascii_lower(s[0]) == crate::text::ascii_lower("catch"@[0]));
        assert(!eq_ignore_ascii_case(s, "taiko"@)) by {
            if eq_ignore_ascii_case(s, "taiko"@) {
                assert(crate::text::ascii_lower(s[0]) == crate::text::ascii_lower("taiko"@[0]));
            }
        }
    }
    if eq_ignore_ascii_case(s, "mania"@) {
        assert(crate::text::ascii_lower(s[0]) == crate::text::ascii_lower("mania"@[0]));
        assert(!eq_ignore_ascii_case(s, "taiko"@)) by {
            if eq_ignore_ascii_case(s, "taiko"@) {
                assert(crate::text::ascii_lower(s[0]) == crate::text::ascii_lower("taiko"@[0]));
            }
        }
        assert(!eq_ignore_ascii_case(s, "catch"@)) by {
            if eq_ignore_ascii_case(s, "catch"@) {
                assert(crate::text::ascii_lower(s[0]) == crate::text::ascii_lower("catch"@[0]));
            }
        }
    }
}

pub fn mode_from_shortname(s: &str) -> (m: GameMode)
    ensures
        m == mode_spec(s@),
        eq_ignore_ascii_case(s@, "osu"@) ==> m == GameMode::Osu,
        eq_ignore_ascii_case(s@, "taiko"@) ==> m == GameMode::Taiko,
        eq_ignore_ascii_case(s@, "fruits"@) ==> m == GameMode::Catch,
        eq_ignore_ascii_case(s@, "catch"@) ==> m == GameMode::Catch,
        eq_ignore_ascii_case(s@, "mania"@) ==> m == GameMode::Mania,
{
    proof {
        ruleset_short_names(s@);
    }
    let v = chars_of(s);
    if eq_ic(&v, "taiko") {
        GameMode::Taiko
    } else if eq_ic(&v, "fruits") || eq_ic(&v, "catch") {
        GameMode::Catch
    } else if eq_ic(&v, "mania") {
        GameMode::Mania
    } else {
        GameMode::Osu
    }
}

pub open spec fn is_hex_ascii(c: char) -> bool {
    ('0' <= c <= '9') || ('a' <= c <= 'f') || ('A' <= c <= 'F')
}

/// A SHA-256 content hash in hex: 64 ASCII hex digits.
pub open spec fn sha256_hex_spec(s: Seq<char>) -> bool {
    s.len() == 64 && forall|i: int| 0 <= i < s.len() ==> is_hex_ascii(#[trigger] s[i])
}

/// The text is a SHA-256 hash in hex (64 hex digits).
pub fn sha256_hex(s: &str) -> (b: bool)
    ensures
        b == sha256_hex_spec(s@),
{
    let v = chars_of(s);
    if v.len() != 64 {
        return false;
    }
    let mut i: usize = 0;
    while i < v.len()
        invariant
            i <= v.len(),
            v@ == s@,
            v.len() == 64,
            forall|k: int| 0 <= k < i ==> is_hex_ascii(#[trigger] v@[k]),
        decreases v.len() - i,
    {
        let c = v[i];
        if !(('0' <= c && c <= '9') || ('a' <= c && c <= 'f') || ('A' <= c && c <= 'F')) {
            assert(!is_hex_ascii(s@[i as int]));
            return false;
        }
        i += 1;
    }
    true
}

/// An audio file name osu! plays: mp3, ogg, wav, mp4 or m4a (case ignored).
pub open spec fn audio_name_spec(name: Seq<char>) -> bool {
    let l = lowercase(name);
    ends_with(l, ".mp3"@) || ends_with(l, ".ogg"@) || ends_with(l, ".wav"@) || ends_with(l, ".mp4"@) || ends_with(l, ".m4a"@)
}

fn ends_str(v: &Vec<char>, suffix: &str) -> (b: bool)
    ensures
        b == ends_with(v@, suffix@),
{
    let s = chars_of(suffix);
    assert(v@.subrange(0, v.len() as int) =~= v@);
    has_suffix(v, 0, v.len(), &s)
}

/// The file name is an audio file osu! plays (by extension only).
pub fn is_audio_filename(name: &str) -> (b: bool)
    ensures
        b == audio_name_spec(name@),
{
    let lower = to_lower(name);
    let v = chars_of(lower.as_str());
    ends_str(&v, ".mp3") || ends_str(&v, ".ogg") || ends_str(&v, ".wav") || ends_str(&v, ".mp4") || ends_str(&v, ".m4a")
}

/// `b` holds `p` at `off`.
pub open spec fn bytes_at(b: Seq<u8>, off: int, p: Seq<u8>) -> bool {
    off + p.len() <= b.len() && b.subrange(off, off + p.len()) == p
}

fn bytes_at_exec(b: &[u8], off: usize, p: &[u8]) -> (r: bool)
    ensures
        r == bytes_at(b@, off as int, p@),
{
    if off > b.len() || b.len() - off < p.len() {
        return false;
    }
    let mut i: usize = 0;
    while i < p.len()
        invariant
            i <= p.len(),
            off + p.len() <= b.len(),
            forall|k: int| 0 <= k < i ==> b@[off + k] == p@[k],
        decreases p.len() - i,
    {
        if b[off + i] != p[i] {
            assert(b@.subrange(off as int, off + p.len())[i as int] != p@[i as int]);
            return false;
        }
        i += 1;
    }
    assert(b@.subrange(off as int, off + p.len()) =~= p@);
    true
}

pub open spec fn riff() -> Seq<u8> { seq![0x52u8, 0x49, 0x46, 0x46] }
pub open spec fn ogg_s() -> Seq<u8> { seq![0x4Fu8, 0x67, 0x67, 0x53] }
pub open spec fn id3() -> Seq<u8> { seq![0x49u8, 0x44, 0x33] }
pub open spec fn wave() -> Seq<u8> { seq![0x57u8, 0x41, 0x56, 0x45] }
pub open spec fn webp() -> Seq<u8> { seq![0x57u8, 0x45, 0x42, 0x50] }
pub open spec fn ftyp() -> Seq<u8> { seq![0x66u8, 0x74, 0x79, 0x70] }

/// A raw MP3 frame: 0xFF then three set high bits.
pub open spec fn mp3_frame(b: Seq<u8>) -> bool {
    b.len() >= 2 && b[0] == 0xFF && (b[1] & 0xE0) == 0xE0
}

/// Audio content by its first bytes: MP3 (ID3 tag or a bare frame), Ogg, WAV, or MP4/M4A.
pub open spec fn audio_magic_spec(b: Seq<u8>) -> bool {
    bytes_at(b, 0, id3()) || mp3_frame(b) || bytes_at(b, 0, ogg_s()) || (bytes_at(b, 0, riff()) && b.len() >= 12 && bytes_at(b, 8, wave()))
        || (b.len() >= 8 && bytes_at(b, 4, ftyp()))
}

fn mp3_frame_exec(b: &[u8]) -> (r: bool)
    ensures
        r == mp3_frame(b@),
{
    b.len() >= 2 && b[0] == 0xFF && (b[1] & 0xE0) == 0xE0
}

/// Audio content by its first bytes (used to calibrate a set's file rows).
pub fn is_audio_magic(b: &[u8]) -> (r: bool)
    ensures
        r == audio_magic_spec(b@),
{
    let id3v = vec![0x49u8, 0x44, 0x33];
    let oggv = vec![0x4Fu8, 0x67, 0x67, 0x53];
    let riffv = vec![0x52u8, 0x49, 0x46, 0x46];
    let wavev = vec![0x57u8, 0x41, 0x56, 0x45];
    let ftypv = vec![0x66u8, 0x74, 0x79, 0x70];
    assert(id3v@ =~= id3() && oggv@ =~= ogg_s() && riffv@ =~= riff() && wavev@ =~= wave() && ftypv@ =~= ftyp());
    bytes_at_exec(b, 0, &id3v) || mp3_frame_exec(b) || bytes_at_exec(b, 0, &oggv)
        || (bytes_at_exec(b, 0, &riffv) && b.len() >= 12 && bytes_at_exec(b, 8, &wavev))
        || (b.len() >= 8 && bytes_at_exec(b, 4, &ftypv))
}

/// Extension of a name as `rsplit('.').next()` gives it (the whole name without a dot),
/// lower-cased.
pub open spec fn name_ext(name: Seq<char>) -> Seq<char> {
    let d = last_index_of(name, '.');
    lowercase(if d < 0 { name } else { name.skip(d + 1) })
}

/// `.osu` / `.osb` text start after an optional UTF-8 BOM.
pub open spec fn osu_text_start(b: Seq<u8>) -> bool {
    let t = if bytes_at(b, 0, seq![0xEFu8, 0xBB, 0xBF]) { b.skip(3) } else { b };
    bytes_at(t, 0, "osu file format"@.map_values(|c: char| c as u8))
        || bytes_at(t, 0, "[Events]"@.map_values(|c: char| c as u8))
        || bytes_at(t, 0, "[General]"@.map_values(|c: char| c as u8))
}

/// The content's first bytes match what the file name's extension calls for; unknown
/// extensions never match.
pub open spec fn magic_spec(ext: Seq<char>, b: Seq<u8>) -> bool {
    if ext == "jpg"@ || ext == "jpeg"@ {
        bytes_at(b, 0, seq![0xFFu8, 0xD8])
    } else if ext == "png"@ {
        bytes_at(b, 0, seq![0x89u8, 0x50, 0x4E, 0x47])
    } else if ext == "webp"@ {
        b.len() >= 12 && bytes_at(b, 0, riff()) && bytes_at(b, 8, webp())
    } else if ext == "gif"@ {
        bytes_at(b, 0, seq![0x47u8, 0x49, 0x46, 0x38])
    } else if ext == "bmp"@ {
        bytes_at(b, 0, seq![0x42u8, 0x4D])
    } else if ext == "mp3"@ {
        bytes_at(b, 0, id3()) || mp3_frame(b)
    } else if ext == "ogg"@ || ext == "oga"@ || ext == "opus"@ {
        bytes_at(b, 0, ogg_s())
    } else if ext == "wav"@ {
        bytes_at(b, 0, riff()) && b.len() >= 12 && bytes_at(b, 8, wave())
    } else if ext == "avi"@ {
        bytes_at(b, 0, riff())
    } else if ext == "mp4"@ || ext == "m4a"@ {
        b.len() >= 8 && bytes_at(b, 4, ftyp())
    } else if ext == "flv"@ {
        bytes_at(b, 0, seq![0x46u8, 0x4C, 0x56])
    } else if ext == "osu"@ || ext == "osb"@ {
        osu_text_start(b)
    } else {
        false
    }
}

fn ascii_bytes(s: &str) -> (r: Vec<u8>)
    requires
        forall|i: int| 0 <= i < s@.len() ==> (s@[i] as u32) < 128,
    ensures
        r@ == s@.map_values(|c: char| c as u8),
{
    let v = chars_of(s);
    let mut out: Vec<u8> = Vec::new();
    let mut i: usize = 0;
    while i < v.len()
        invariant
            i <= v.len(),
            v@ == s@,
            forall|k: int| 0 <= k < v@.len() ==> (v@[k] as u32) < 128,
            out@ == v@.take(i as int).map_values(|c: char| c as u8),
        decreases v.len() - i,
    {
        let c = v[i];
        out.push(c as u8);
        i += 1;
        assert(out@ =~= v@.take(i as int).map_values(|c: char| c as u8));
    }
    assert(v@.take(v.len() as int) =~= v@);
    out
}

fn osu_text_start_exec(b: &[u8]) -> (r: bool)
    ensures
        r == osu_text_start(b@),
{
    let bom = vec![0xEFu8, 0xBB, 0xBF];
    assert(bom@ =~= seq![0xEFu8, 0xBB, 0xBF]);
    let t: &[u8] = if bytes_at_exec(b, 0, &bom) { &b[3..b.len()] } else { b };
    assert(bytes_at(b@, 0, seq![0xEFu8, 0xBB, 0xBF]) ==> t@ =~= b@.skip(3));
    proof {
        reveal_strlit("osu file format");
        reveal_strlit("[Events]");
        reveal_strlit("[General]");
    }
    let a = ascii_bytes("osu file format");
    let e = ascii_bytes("[Events]");
    let g = ascii_bytes("[General]");
    bytes_at_exec(t, 0, &a) || bytes_at_exec(t, 0, &e) || bytes_at_exec(t, 0, &g)
}

/// Whether the first bytes of a file fit the extension of its name (unknown extensions never
/// do; `.osu` and `.osb` accept a UTF-8 BOM).
pub fn magic_matches(name: &str, bytes: &[u8]) -> (r: bool)
    ensures
        r == magic_spec(name_ext(name@), bytes@),
{
    let v = chars_of(name);
    assert(v@.subrange(0, v.len() as int) =~= v@);
    let from: usize = match last_index(&v, 0, v.len(), '.') {
        Some(d) => d + 1,
        None => 0,
    };
    assert(v@.subrange(from as int, v.len() as int) =~= (if last_index_of(v@, '.') < 0 { v@ } else { v@.skip(last_index_of(v@, '.') + 1) }));
    let raw = string_of_range(&v, from, v.len());
    let ext = to_lower(raw.as_str());
    let e = ext.as_str();
    let b = bytes;
    if str_eq(e, "jpg") || str_eq(e, "jpeg") {
        let p = vec![0xFFu8, 0xD8];
        assert(p@ =~= seq![0xFFu8, 0xD8]);
        bytes_at_exec(b, 0, &p)
    } else if str_eq(e, "png") {
        let p = vec![0x89u8, 0x50, 0x4E, 0x47];
        assert(p@ =~= seq![0x89u8, 0x50, 0x4E, 0x47]);
        bytes_at_exec(b, 0, &p)
    } else if str_eq(e, "webp") {
        let r1 = vec![0x52u8, 0x49, 0x46, 0x46];
        let w1 = vec![0x57u8, 0x45, 0x42, 0x50];
        assert(r1@ =~= riff() && w1@ =~= webp());
        b.len() >= 12 && bytes_at_exec(b, 0, &r1) && bytes_at_exec(b, 8, &w1)
    } else if str_eq(e, "gif") {
        let p = vec![0x47u8, 0x49, 0x46, 0x38];
        assert(p@ =~= seq![0x47u8, 0x49, 0x46, 0x38]);
        bytes_at_exec(b, 0, &p)
    } else if str_eq(e, "bmp") {
        let p = vec![0x42u8, 0x4D];
        assert(p@ =~= seq![0x42u8, 0x4D]);
        bytes_at_exec(b, 0, &p)
    } else if str_eq(e, "mp3") {
        let p = vec![0x49u8, 0x44, 0x33];
        assert(p@ =~= id3());
        bytes_at_exec(b, 0, &p) || mp3_frame_exec(b)
    } else if str_eq(e, "ogg") || str_eq(e, "oga") || str_eq(e, "opus") {
        let p = vec![0x4Fu8, 0x67, 0x67, 0x53];
        assert(p@ =~= ogg_s());
        bytes_at_exec(b, 0, &p)
    } else if str_eq(e, "wav") {
        let r1 = vec![0x52u8, 0x49, 0x46, 0x46];
        let w1 = vec![0x57u8, 0x41, 0x56, 0x45];
        assert(r1@ =~= riff() && w1@ =~= wave());
        bytes_at_exec(b, 0, &r1) && b.len() >= 12 && bytes_at_exec(b, 8, &w1)
    } else if str_eq(e, "avi") {
        let r1 = vec![0x52u8, 0x49, 0x46, 0x46];
        assert(r1@ =~= riff());
        bytes_at_exec(b, 0, &r1)
    } else if str_eq(e, "mp4") || str_eq(e, "m4a") {
        let f1 = vec![0x66u8, 0x74, 0x79, 0x70];
        assert(f1@ =~= ftyp());
        b.len() >= 8 && bytes_at_exec(b, 4, &f1)
    } else if str_eq(e, "flv") {
        let p = vec![0x46u8, 0x4C, 0x56];
        assert(p@ =~= seq![0x46u8, 0x4C, 0x56]);
        bytes_at_exec(b, 0, &p)
    } else if str_eq(e, "osu") || str_eq(e, "osb") {
        osu_text_start_exec(b)
    } else {
        false
    }
}

} // verus!

verus! {

pub open spec fn lower_names(v: Seq<(Seq<char>, u64)>) -> Seq<Seq<char>> {
    v.map_values(|e: (Seq<char>, u64)| lowercase(e.0))
}

/// A set's named files from its Files list (1-based name-table ids): (name, file id) for each
/// id in range with a non-empty name and a file link >= 1; a name already taken (case ignored)
/// is skipped, the first kept.
pub open spec fn named_spec(list: Seq<u64>, names: Seq<Seq<char>>, files: Seq<u64>) -> Seq<(Seq<char>, u64)>
    decreases list.len(),
{
    if list.len() == 0 {
        Seq::empty()
    } else {
        let prev = named_spec(list.drop_last(), names, files);
        let v = list.last();
        if 1 <= v <= names.len() && names[v - 1].len() > 0 && v - 1 < files.len() && files[v - 1] >= 1
            && !lower_names(prev).contains(lowercase(names[v - 1])) {
            prev.push((names[v - 1], files[v - 1]))
        } else {
            prev
        }
    }
}

pub open spec fn named_views(v: Seq<(String, u64)>) -> Seq<(Seq<char>, u64)> {
    v.map_values(|e: (String, u64)| (e.0@, e.1))
}

fn contains_str(v: &Vec<String>, s: &String) -> (b: bool)
    ensures
        b == string_views(v@).contains(s@),
{
    let mut i: usize = 0;
    while i < v.len()
        invariant
            i <= v.len(),
            forall|j: int| 0 <= j < i ==> string_views(v@)[j] != s@,
        decreases v.len() - i,
    {
        if str_eq(v[i].as_str(), s.as_str()) {
            assert(string_views(v@)[i as int] == s@);
            return true;
        }
        i += 1;
    }
    false
}

/// A set's named files (see `named_spec`).
pub fn set_named_files(list: &[u64], nru_name: &Vec<String>, nru_file: &Vec<u64>) -> (r: Vec<(String, u64)>)
    ensures
        named_views(r@) == named_spec(list@, string_views(nru_name@), nru_file@),
{
    let mut out: Vec<(String, u64)> = Vec::new();
    let mut seen: Vec<String> = Vec::new();
    let mut i: usize = 0;
    while i < list.len()
        invariant
            i <= list.len(),
            named_views(out@) == named_spec(list@.take(i as int), string_views(nru_name@), nru_file@),
            string_views(seen@) == lower_names(named_views(out@)),
        decreases list.len() - i,
    {
        assert(list@.take(i + 1).drop_last() =~= list@.take(i as int));
        let v = list[i];
        let ghost prev = named_views(out@);
        if v >= 1 && v <= nru_name.len() as u64 {
            let row = (v - 1) as usize;
            let name = &nru_name[row];
            assert(string_views(nru_name@)[row as int] == name@);
            if !name.as_str().is_empty() && row < nru_file.len() && nru_file[row] >= 1 {
                let key = to_lower(name.as_str());
                if !contains_str(&seen, &key) {
                    let ghost kv = key@;
                    let ghost sb = seen@;
                    let ghost ob = out@;
                    seen.push(key);
                    assert(string_views(seen@) =~= string_views(sb).push(kv));
                    out.push((name.clone(), nru_file[row]));
                    assert(named_views(out@) =~= named_views(ob).push((name@, nru_file@[row as int])));
                    assert(lower_names(named_views(out@)) =~= lower_names(named_views(ob)).push(kv));
                }
            }
        }
        i += 1;
    }
    assert(list@.take(list.len() as int) =~= list@);
    out
}

} // verus!

verus! {

use crate::text::{trim, trim_range, starts_with, has_prefix, parse_i64_range, parse_i64_spec};

/// The `BeatmapSetID` of the `[Metadata]` section, reading the lines from `i` on inside
/// section `section`; 0 when it is missing or does not parse.
pub open spec fn embedded_from(lines: Seq<Seq<char>>, i: int, section: Seq<char>) -> i64
    decreases lines.len() - i,
{
    if i < 0 || i >= lines.len() {
        0
    } else {
        let t = trim(lines[i]);
        if t.len() >= 2 && t[0] == '[' && t.last() == ']' {
            embedded_from(lines, i + 1, t.subrange(1, t.len() - 1))
        } else if section == "Metadata"@ && starts_with(t, "BeatmapSetID:"@) {
            match parse_i64_spec(trim(t.skip(13))) {
                Some(v) => v,
                None => 0,
            }
        } else {
            embedded_from(lines, i + 1, section)
        }
    }
}

/// The `BeatmapSetID` a `.osu` file declares in its `[Metadata]` section (0 when it does not,
/// or the value does not parse); `lines` are the file's lines up to the first unreadable one.
pub fn embedded_set_id(lines: &[String]) -> (r: i64)
    ensures
        r == embedded_from(string_views(lines@), 0, Seq::empty()),
{
    let ghost ls = string_views(lines@);
    let mut section: Vec<char> = Vec::new();
    let key = chars_of("BeatmapSetID:");
    let meta = chars_of("Metadata");
    proof {
        reveal_strlit("BeatmapSetID:");
    }
    let mut i: usize = 0;
    while i < lines.len()
        invariant
            i <= lines.len(),
            ls == string_views(lines@),
            key@ == "BeatmapSetID:"@,
            key@.len() == 13,
            meta@ == "Metadata"@,
            embedded_from(ls, 0, Seq::empty()) == embedded_from(ls, i as int, section@),
        decreases lines.len() - i,
    {
        let v = chars_of(lines[i].as_str());
        assert(ls[i as int] == v@);
        let (a, b) = trim_range(&v, 0, v.len());
        assert(v@.subrange(0, v.len() as int) =~= v@);
        let ghost t = v@.subrange(a as int, b as int);
        if b - a >= 2 && v[a] == '[' && v[b - 1] == ']' {
            let mut s: Vec<char> = Vec::new();
            let mut k = a + 1;
            while k < b - 1
                invariant
                    a + 1 <= k <= b - 1,
                    b <= v.len(),
                    s@ == v@.subrange(a + 1, k as int),
                decreases b - 1 - k,
            {
                s.push(v[k]);
                k += 1;
                assert(s@ =~= v@.subrange(a + 1, k as int));
            }
            assert(s@ =~= t.subrange(1, t.len() - 1));
            section = s;
            i += 1;
            continue;
        }
        let in_meta = crate::text::compare_chars(&section, &meta) == 0;
        proof {
            crate::text::lemma_lex_props(section@, meta@);
        }
        if in_meta && has_prefix(&v, a, b, &key) {
            let (c, d) = trim_range(&v, a + 13, b);
            assert(v@.subrange(a + 13, b as int) =~= t.skip(13));
            return match parse_i64_range(&v, c, d) {
                Some(x) => x,
                None => 0,
            };
        }
        i += 1;
    }
    0
}

} // verus!

verus! {

/// Row `r` of the File table names a content file: the row exists and holds a SHA-256 hash.
pub open spec fn row_hash_ok(hashes: Seq<Seq<char>>, r: int) -> bool {
    0 <= r < hashes.len() && sha256_hex_spec(hashes[r])
}

/// Content that is audio.
pub open spec fn audio_ok() -> spec_fn(Seq<u8>) -> bool {
    |b: Seq<u8>| audio_magic_spec(b)
}

/// Content fitting a file name's extension.
pub open spec fn fits_name(name: Seq<char>) -> spec_fn(Seq<u8>) -> bool {
    |b: Seq<u8>| magic_spec(name_ext(name), b)
}

/// `probe` can report, for the file of hash `h`, first bytes `head` matching `ok` at `path`.
pub open spec fn probed<P: Fn(&str) -> Option<(Vec<u8>, String)>>(probe: P, h: Seq<char>, ok: spec_fn(Seq<u8>) -> bool, path: Seq<char>) -> bool {
    exists|s: &str, res: Option<(Vec<u8>, String)>| s@ == h && probe.ensures((s,), res)
        && (res matches Some((hd, p)) && hd@.len() > 0 && ok(hd@) && p@ == path)
}

/// The set's drift between file ids and File rows, calibrated on its audio file: the first
/// `d` in 0..=12 whose row `file_id - 1 - d` holds audio content, 0 when none does. `probe`
/// reads a content file's first bytes (and its path) by hash.
pub fn calibrate_drift<P: Fn(&str) -> Option<(Vec<u8>, String)>>(hashes: &Vec<String>, probe: &P, fid_audio: u64) -> (d: i64)
    requires
        forall|s: &str| probe.requires((s,)),
    ensures
        0 <= d <= 12,
        d > 0 ==> row_hash_ok(string_views(hashes@), fid_audio - 1 - d)
            && exists|path: Seq<char>| #[trigger] probed(*probe, string_views(hashes@)[fid_audio - 1 - d], audio_ok(), path),
        forall|e: int| 0 <= e < d ==> #[trigger] row_unfit_with(*probe, string_views(hashes@), fid_audio as int, e, audio_ok()),
        d == 0 ==> (row_hash_ok(string_views(hashes@), fid_audio - 1)
                && exists|path: Seq<char>| #[trigger] probed(*probe, string_views(hashes@)[fid_audio - 1], audio_ok(), path))
            || forall|e: int| 0 <= e <= 12 ==> #[trigger] row_unfit_with(*probe, string_views(hashes@), fid_audio as int, e, audio_ok()),
{
    let ghost hs = string_views(hashes@);
    if fid_audio == 0 || fid_audio - 1 > i64::MAX as u64 {
        return 0;
    }
    let base = (fid_audio - 1) as i64;
    let mut d: i64 = 0;
    while d <= 12 && d <= base
        invariant
            0 <= d <= 13,
            base as int == fid_audio - 1,
            hs == string_views(hashes@),
            forall|s: &str| probe.requires((s,)),
            forall|e: int| 0 <= e < d ==> #[trigger] row_unfit_with(*probe, hs, fid_audio as int, e, audio_ok()),
        decreases 13 - d,
    {
        let r = base - d;
        if (r as u64) < (hashes.len() as u64) {
            let ru = r as usize;
            assert(hs[ru as int] == hashes@[ru as int]@);
            if sha256_hex(hashes[ru].as_str()) {
                let hstr: &str = hashes[ru].as_str();
                let res = probe(hstr);
                let ghost rv = res;
                match res {
                    Some((head, path)) => {
                        if head.len() > 0 && is_audio_magic(head.as_slice()) {
                            assert(probed(*probe, hs[ru as int], audio_ok(), path@));
                            return d;
                        }
                    },
                    None => {},
                }
                assert(unfit(*probe, hs[ru as int], audio_ok())) by {
                    assert(probe.ensures((hstr,), rv));
                }
            }
        }
        d += 1;
    }
    assert forall|e: int| 0 <= e <= 12 implies #[trigger] row_unfit_with(*probe, hs, fid_audio as int, e, audio_ok()) by {
        if e >= d {
            assert(fid_audio - 1 - e < 0);
        }
    }
    0
}

/// One outcome `probe` can give for the file of hash `h` is no content fitting `ok`.
pub open spec fn unfit<P: Fn(&str) -> Option<(Vec<u8>, String)>>(probe: P, h: Seq<char>, ok: spec_fn(Seq<u8>) -> bool) -> bool {
    exists|s: &str, res: Option<(Vec<u8>, String)>| s@ == h && #[trigger] probe.ensures((s,), res)
        && !(res matches Some((hd, _p)) && hd@.len() > 0 && ok(hd@))
}

/// Row `file_id - 1 - d`, when a lookup reads it (a content row, `file_id - 1` within `i64`),
/// gave no content fitting `ok`.
pub open spec fn row_unfit_with<P: Fn(&str) -> Option<(Vec<u8>, String)>>(probe: P, hashes: Seq<Seq<char>>, file_id: int, d: int, ok: spec_fn(Seq<u8>) -> bool) -> bool {
    file_id - 1 <= i64::MAX && row_hash_ok(hashes, file_id - 1 - d)
        ==> unfit(probe, hashes[file_id - 1 - d], ok)
}

/// Row `file_id - 1 - d`, when a lookup reads it, gave no content fitting `name`.
pub open spec fn row_unfit<P: Fn(&str) -> Option<(Vec<u8>, String)>>(probe: P, hashes: Seq<Seq<char>>, file_id: int, d: int, name: Seq<char>) -> bool {
    row_unfit_with(probe, hashes, file_id, d, fits_name(name))
}

/// The drift a lookup starts from: `d0` brought within `0..=window`.
pub open spec fn drift_start(d0: i64, window: i64) -> int {
    if d0 < 0 { 0 } else if d0 > window { window as int } else { d0 as int }
}

pub open spec fn drift_gap(e: int, s: int) -> int {
    if e >= s { e - s } else { s - e }
}

/// Drift `e` is tried before drift `d` by a lookup starting from `s`: it is nearer to `s`, or
/// as near and above it.
pub open spec fn tried_before(e: int, d: int, s: int) -> bool {
    drift_gap(e, s) < drift_gap(d, s) || (drift_gap(e, s) == drift_gap(d, s) && e > d)
}

/// Locates the content file of a named file: row `file_id - 1 - d`, trying the calibrated
/// drift first and then drifts ever farther from it within `0..=window` (the higher of two
/// equally far first), and accepting the first row whose first bytes fit the name. Returns
/// (row, path); none when no row of the window gave fitting content.
pub fn resolve_at<P: Fn(&str) -> Option<(Vec<u8>, String)>>(hashes: &Vec<String>, probe: &P, file_id: u64, name: &str, d0: i64, window: i64) -> (r: Option<(u64, String)>)
    requires
        forall|s: &str| probe.requires((s,)),
        0 <= window <= 1000,
    ensures
        r matches Some((row, path)) ==> row_hash_ok(string_views(hashes@), row as int)
            && 0 <= file_id - 1 - row <= window
            && file_id - 1 <= i64::MAX
            && probed(*probe, string_views(hashes@)[row as int], fits_name(name@), path@),
        r matches Some((row, _path)) ==> forall|e: int| 0 <= e <= window && tried_before(e, file_id - 1 - row, drift_start(d0, window))
            ==> #[trigger] row_unfit(*probe, string_views(hashes@), file_id as int, e, name@),
        r is None ==> forall|d: int| 0 <= d <= window ==> #[trigger] row_unfit(*probe, string_views(hashes@), file_id as int, d, name@),
{
    let ghost hs = string_views(hashes@);
    if file_id == 0 || file_id - 1 > i64::MAX as u64 {
        return None;
    }
    let base = (file_id - 1) as i64;
    let ghost ds = drift_start(d0, window);
    let start = if d0 < 0 { 0 } else if d0 > window { window } else { d0 };
    let mut off: i64 = 0;
    while off <= window
        invariant
            0 <= off <= window + 1,
            0 <= start <= window <= 1000,
            start as int == ds,
            ds == drift_start(d0, window),
            base as int == file_id - 1,
            hs == string_views(hashes@),
            forall|s: &str| probe.requires((s,)),
            forall|d: int| 0 <= d <= window && start - off < d < start + off ==> #[trigger] row_unfit(*probe, hs, file_id as int, d, name@),
        decreases window + 1 - off,
    {
        let mut pass: u8 = 0;
        while pass < 2
            invariant
                pass <= 2,
                0 <= off <= window,
                0 <= start <= window <= 1000,
                start as int == ds,
                ds == drift_start(d0, window),
                base as int == file_id - 1,
                hs == string_views(hashes@),
                forall|s: &str| probe.requires((s,)),
                forall|d: int| 0 <= d <= window && start - off < d < start + off ==> #[trigger] row_unfit(*probe, hs, file_id as int, d, name@),
                pass >= 1 && start + off <= window ==> row_unfit(*probe, hs, file_id as int, start + off, name@),
                pass >= 2 && 0 <= start - off ==> row_unfit(*probe, hs, file_id as int, start - off, name@),
            decreases 2 - pass,
        {
            let d = if pass == 0 { start + off } else { start - off };
            pass += 1;
            if d < 0 || d > window {
                continue;
            }
            let row = base - d;
            if row < 0 || (row as u64) >= (hashes.len() as u64) {
                continue;
            }
            let ru = row as usize;
            assert(hs[ru as int] == hashes@[ru as int]@);
            if !sha256_hex(hashes[ru].as_str()) {
                continue;
            }
            let hstr: &str = hashes[ru].as_str();
            let res = probe(hstr);
            let ghost rv = res;
            match res {
                Some((head, path)) => {
                    if head.len() > 0 && magic_matches(name, head.as_slice()) {
                        assert(probed(*probe, hs[ru as int], fits_name(name@), path@));
                        assert forall|e: int| 0 <= e <= window && tried_before(e, d as int, ds)
                            implies #[trigger] row_unfit(*probe, hs, file_id as int, e, name@) by {
                            if drift_gap(e, ds) == drift_gap(d as int, ds) {
                                assert(e == start + off);
                            }
                        }
                        assert(file_id - 1 - (row as u64) == d as int);
                        return Some((row as u64, path));
                    }
                },
                None => {},
            }
            assert(unfit(*probe, hs[ru as int], fits_name(name@))) by {
                assert(probe.ensures((hstr,), rv));
            }
        }
        off += 1;
    }
    None
}

} // verus!

verus! {

/// Some File row holds a content file whose first bytes fit `name`, found at `path`.
pub open spec fn found_in_rows<P: Fn(&str) -> Option<(Vec<u8>, String)>>(probe: P, hashes: Seq<Seq<char>>, name: Seq<char>, path: Seq<char>) -> bool {
    exists|row: int| row_hash_ok(hashes, row) && #[trigger] probed(probe, hashes[row], fits_name(name), path)
}

/// A named file whose lower-cased name ends with `.osu`.
pub open spec fn osu_name(name: Seq<char>) -> bool {
    ends_with(lowercase(name), ".osu"@)
}

/// How many of the first `k` named files are `.osu` files.
pub open spec fn osu_count(named: Seq<(Seq<char>, u64)>, k: int) -> int
    decreases k,
{
    if k <= 0 { 0 } else { osu_count(named, k - 1) + if osu_name(named[k - 1].0) { 1int } else { 0int } }
}

/// The `.osu` file at `path` was read as declaring set `id`.
pub open spec fn reports_set<O: Fn(&String) -> i64>(osu_set_id: O, path: Seq<char>, id: i64) -> bool {
    exists|q: &String, e: i64| q@ == path && #[trigger] osu_set_id.ensures((q,), e) && e == id
}

/// The `.osu` file at `path` was read as declaring something other than set `id`.
pub open spec fn reports_other<O: Fn(&String) -> i64>(osu_set_id: O, path: Seq<char>, id: i64) -> bool {
    exists|q: &String, e: i64| q@ == path && #[trigger] osu_set_id.ensures((q,), e) && e != id
}

/// Row `a` anchors the set: the `.osu` file `f` was found there declaring set `id`.
pub open spec fn anchor_at<P, O>(probe: P, osu_set_id: O, hashes: Seq<Seq<char>>, f: (Seq<char>, u64), id: i64, a: int) -> bool where
    P: Fn(&str) -> Option<(Vec<u8>, String)>,
    O: Fn(&String) -> i64,
{
    row_hash_ok(hashes, a)
        && exists|path: Seq<char>| #[trigger] probed(probe, hashes[a], fits_name(f.0), path) && reports_set(osu_set_id, path, id)
}

/// No content row within 8 of row `a` gave content fitting `want`.
pub open spec fn block_unfit<P: Fn(&str) -> Option<(Vec<u8>, String)>>(probe: P, hashes: Seq<Seq<char>>, a: int, want: Seq<char>) -> bool {
    forall|r: int| a - 8 <= r <= a + 8 && row_hash_ok(hashes, r) ==> #[trigger] unfit(probe, hashes[r], fits_name(want))
}

/// What the anchored search made of the `.osu` file `f`: not found, found declaring another set,
/// or found as an anchor around which no row fit `want`.
pub open spec fn anchor_tried<P, O>(probe: P, osu_set_id: O, hashes: Seq<Seq<char>>, f: (Seq<char>, u64), id: i64, want: Seq<char>) -> bool where
    P: Fn(&str) -> Option<(Vec<u8>, String)>,
    O: Fn(&String) -> i64,
{
    ||| lookup_failed(probe, hashes, f)
    ||| exists|path: Seq<char>| #[trigger] found_in_rows(probe, hashes, f.0, path) && reports_other(osu_set_id, path, id)
    ||| exists|a: int| #[trigger] anchor_at(probe, osu_set_id, hashes, f, id, a) && block_unfit(probe, hashes, a, want)
}

proof fn lemma_osu_count_mono(named: Seq<(Seq<char>, u64)>, k: int, x: int)
    requires
        0 <= k <= x,
    ensures
        osu_count(named, k) <= osu_count(named, x),
    decreases x - k,
{
    if x > k {
        lemma_osu_count_mono(named, k, x - 1);
    }
}

/// What the anchored search may give for the wanted background `want` of set `id`: the wanted
/// name with a path where content fitting it was found; or nothing, when no name is wanted or
/// when each of the first four `.osu` files among `named` was tried without success
/// (`anchor_tried`).
pub open spec fn recovered<P, O>(r: Option<(String, String)>, probe: P, osu_set_id: O, hashes: Seq<Seq<char>>, named: Seq<(Seq<char>, u64)>, want: Seq<char>, id: i64) -> bool where
    P: Fn(&str) -> Option<(Vec<u8>, String)>,
    O: Fn(&String) -> i64,
{
    &&& (r matches Some((n, _p)) ==> n@ == want && want.len() > 0)
    &&& (r matches Some((_n, path)) ==> found_in_rows(probe, hashes, want, path@))
    &&& (r is None && want.len() > 0 ==> forall|k: int| 0 <= k < named.len() && osu_name(named[k].0) && osu_count(named, k) < 4
        ==> #[trigger] anchor_tried(probe, osu_set_id, hashes, named[k], id, want))
}

/// Background for a set whose Files list lacks it: up to four of its `.osu` files that declare
/// the set's own id anchor its block of File rows; the rows within 8 of the anchors are searched
/// for content fitting the wanted background name. Returns (name, path); none when no name is
/// wanted, or when each of the first four `.osu` files was not found, declared another set, or
/// anchored a block in which nothing fit. `osu_set_id` reads the set id a `.osu` file declares.
pub fn recover_bg_by_osu_anchor<P, O>(
    hashes: &Vec<String>,
    probe: &P,
    osu_set_id: &O,
    named: &Vec<(String, u64)>,
    d0: i64,
    want: &str,
    set_id: i64,
) -> (r: Option<(String, String)>) where
    P: Fn(&str) -> Option<(Vec<u8>, String)>,
    O: Fn(&String) -> i64,

    requires
        forall|s: &str| probe.requires((s,)),
        forall|p: &String| osu_set_id.requires((p,)),
    ensures
        recovered(r, *probe, *osu_set_id, string_views(hashes@), named_views(named@), want@, set_id),
{
    if want.is_empty() {
        return None;
    }
    let ghost hs = string_views(hashes@);
    let ghost nv = named_views(named@);
    let mut anchors: Vec<i64> = Vec::new();
    let mut taken: usize = 0;
    let mut k: usize = 0;
    while k < named.len() && taken < 4
        invariant
            k <= named.len(),
            taken <= 4,
            taken as int == osu_count(nv, k as int),
            hs == string_views(hashes@),
            nv == named_views(named@),
            forall|s: &str| probe.requires((s,)),
            forall|p: &String| osu_set_id.requires((p,)),
            forall|j: int| 0 <= j < anchors@.len() ==> 0 <= #[trigger] anchors@[j] < hashes@.len(),
            forall|x: int| 0 <= x < k && osu_name(nv[x].0) && osu_count(nv, x) < 4 ==>
                lookup_failed(*probe, hs, #[trigger] nv[x])
                || (exists|path: Seq<char>| #[trigger] found_in_rows(*probe, hs, nv[x].0, path) && reports_other(*osu_set_id, path, set_id))
                || (exists|j: int| 0 <= j < anchors@.len() && anchor_at(*probe, *osu_set_id, hs, nv[x], set_id, #[trigger] anchors@[j] as int)),
        decreases named.len() - k,
    {
        let ghost old_anchors = anchors@;
        assert(nv[k as int] == (named@[k as int].0@, named@[k as int].1));
        let lower = to_lower(named[k].0.as_str());
        let lv = chars_of(lower.as_str());
        if ends_osu(&lv) {
            taken += 1;
            match resolve_at(hashes, probe, named[k].1, named[k].0.as_str(), d0, 12) {
                Some((row, p)) => {
                    proof {
                        lemma_resolved_found(*probe, hs, row as int, nv[k as int].0, p@);
                    }
                    let e = osu_set_id(&p);
                    if e == set_id && row <= i64::MAX as u64 {
                        anchors.push(row as i64);
                        assert(reports_set(*osu_set_id, p@, set_id));
                        assert(anchor_at(*probe, *osu_set_id, hs, nv[k as int], set_id, anchors@[anchors@.len() - 1] as int));
                    } else {
                        assert(reports_other(*osu_set_id, p@, set_id));
                        assert(found_in_rows(*probe, hs, nv[k as int].0, p@));
                    }
                },
                None => {
                    assert(lookup_failed(*probe, hs, nv[k as int]));
                },
            }
        }
        assert forall|x: int| 0 <= x < k + 1 && osu_name(nv[x].0) && osu_count(nv, x) < 4 implies
            lookup_failed(*probe, hs, #[trigger] nv[x])
            || (exists|path: Seq<char>| #[trigger] found_in_rows(*probe, hs, nv[x].0, path) && reports_other(*osu_set_id, path, set_id))
            || (exists|j: int| 0 <= j < anchors@.len() && anchor_at(*probe, *osu_set_id, hs, nv[x], set_id, #[trigger] anchors@[j] as int)) by {
            if x < k {
                if !lookup_failed(*probe, hs, nv[x])
                    && !(exists|path: Seq<char>| #[trigger] found_in_rows(*probe, hs, nv[x].0, path) && reports_other(*osu_set_id, path, set_id)) {
                    let j = choose|j: int| 0 <= j < old_anchors.len() && anchor_at(*probe, *osu_set_id, hs, nv[x], set_id, #[trigger] old_anchors[j] as int);
                    assert(anchors@[j] == old_anchors[j]);
                }
            }
        }
        k += 1;
    }
    proof {
        assert forall|x: int| k <= x < nv.len() implies !(osu_name(nv[x].0) && osu_count(nv, x) < 4) by {
            lemma_osu_count_mono(nv, k as int, x);
        }
    }
    if anchors.len() == 0 {
        return None;
    }
    let mut lo = anchors[0];
    let mut hi = anchors[0];
    let mut j: usize = 1;
    while j < anchors.len()
        invariant
            1 <= j <= anchors.len(),
            0 <= lo <= hi < hashes@.len(),
            forall|x: int| 0 <= x < anchors@.len() ==> 0 <= #[trigger] anchors@[x] < hashes@.len(),
            forall|x: int| 0 <= x < j ==> lo <= #[trigger] anchors@[x] <= hi,
        decreases anchors.len() - j,
    {
        if anchors[j] < lo {
            lo = anchors[j];
        }
        if anchors[j] > hi {
            hi = anchors[j];
        }
        j += 1;
    }
    let ghost glo = lo as int;
    let ghost ghi = hi as int;
    let lo: u64 = if lo < 8 { 0 } else { (lo - 8) as u64 };
    let last: u64 = (hashes.len() - 1) as u64;
    let hi: u64 = if (hi as u64) + 8 < last { hi as u64 + 8 } else { last };
    let mut cur: u64 = lo;
    while cur <= hi
        invariant
            lo <= cur,
            lo as int == if glo < 8 { 0 } else { glo - 8 },
            hi as int == if ghi + 8 < last { ghi + 8 } else { last as int },
            last as int == hashes@.len() - 1,
            hi < hashes@.len(),
            hashes@.len() == hashes.len(),
            hs == string_views(hashes@),
            want@.len() > 0,
            forall|s: &str| probe.requires((s,)),
            forall|r: int| lo <= r < cur && row_hash_ok(hs, r) ==> #[trigger] unfit(*probe, hs[r], fits_name(want@)),
        decreases hi + 1 - cur,
    {
        let ru = cur as usize;
        assert(hs[ru as int] == hashes@[ru as int]@);
        if sha256_hex(hashes[ru].as_str()) {
            assert(row_hash_ok(hs, ru as int));
            let hstr: &str = hashes[ru].as_str();
            let res = probe(hstr);
            let ghost rv = res;
            match res {
                Some((head, path)) => {
                    if head.len() > 0 && magic_matches(want, head.as_slice()) {
                        assert(probed(*probe, hs[ru as int], fits_name(want@), path@));
                        let mut w = String::new();
                        push_str(&mut w, want);
                        assert(w@ =~= want@);
                        assert(found_in_rows(*probe, hs, want@, path@));
                        return Some((w, path));
                    }
                },
                None => {},
            }
            assert(unfit(*probe, hs[ru as int], fits_name(want@))) by {
                assert(probe.ensures((hstr,), rv));
            }
        }
        cur += 1;
    }
    proof {
        assert forall|x: int| 0 <= x < anchors@.len() implies block_unfit(*probe, hs, #[trigger] anchors@[x] as int, want@) by {
            let a = anchors@[x] as int;
            assert(glo <= a <= ghi);
            assert forall|r: int| a - 8 <= r <= a + 8 && row_hash_ok(hs, r) implies #[trigger] unfit(*probe, hs[r], fits_name(want@)) by {
                assert(lo <= r < cur);
            }
        }
        assert forall|x: int| 0 <= x < nv.len() && osu_name(nv[x].0) && osu_count(nv, x) < 4
            implies #[trigger] anchor_tried(*probe, *osu_set_id, hs, nv[x], set_id, want@) by {
            if !lookup_failed(*probe, hs, nv[x])
                && !(exists|path: Seq<char>| #[trigger] found_in_rows(*probe, hs, nv[x].0, path) && reports_other(*osu_set_id, path, set_id)) {
                let j = choose|j: int| 0 <= j < anchors@.len() && anchor_at(*probe, *osu_set_id, hs, nv[x], set_id, #[trigger] anchors@[j] as int);
                assert(block_unfit(*probe, hs, anchors@[j] as int, want@));
            }
        }
    }
    None
}

fn ends_osu(v: &Vec<char>) -> (b: bool)
    ensures
        b == ends_with(v@, ".osu"@),
{
    let s = chars_of(".osu");
    assert(v@.subrange(0, v.len() as int) =~= v@);
    has_suffix(v, 0, v.len(), &s)
}

} // verus!

verus! {

/// Leaves of an optional table: none when the table is missing.
pub open spec fn opt_leaves_spec(data: Seq<u8>, table: Seq<char>) -> Seq<(Seq<u64>, nat)> {
    match locate_spec(data, table) {
        Some(r) => leaves_spec(data, r),
        None => Seq::empty(),
    }
}

/// Leaves of a table, none when it is missing.
pub fn opt_leaves(data: &[u8], table: &str) -> (r: Vec<Leaf>)
    ensures
        leaf_views(r@) == opt_leaves_spec(data@, table@),
{
    match locate_table(data, table) {
        Some(root) => collect_leaves(data, root),
        None => {
            let v: Vec<Leaf> = Vec::new();
            assert(leaf_views(v@) =~= Seq::<(Seq<u64>, nat)>::empty());
            v
        },
    }
}

/// The columns the library scan reads, flattened over their tables' leaves. Floating-point
/// columns are kept as raw bits.
#[derive(Debug)]
pub struct LazerColumns {
    pub bm_version: Vec<String>,
    pub bm_ruleset: Vec<u64>,
    pub bm_diff: Vec<u64>,
    pub bm_meta: Vec<u64>,
    pub bm_set: Vec<u64>,
    pub bm_online: Vec<u64>,
    pub bm_len: Vec<u64>,
    pub bm_bpm: Vec<u64>,
    pub bm_sr: Vec<u64>,
    pub bm_md5: Vec<String>,
    pub bm_objects: Vec<u64>,
    pub set_online: Vec<u64>,
    pub set_files: Vec<Vec<u64>>,
    pub set_status: Vec<u64>,
    pub set_date_added: Vec<Option<i64>>,
    pub md_title: Vec<String>,
    pub md_title_u: Vec<String>,
    pub md_artist: Vec<String>,
    pub md_artist_u: Vec<String>,
    pub md_author: Vec<u64>,
    pub md_audio: Vec<String>,
    pub md_bg: Vec<String>,
    pub file_hashes: Vec<String>,
    pub nru_file: Vec<u64>,
    pub nru_name: Vec<String>,
    pub d_dr: Vec<u64>,
    pub d_cs: Vec<u64>,
    pub d_od: Vec<u64>,
    pub d_ar: Vec<u64>,
    pub user_name: Vec<String>,
    pub ruleset_short: Vec<String>,
}

/// The columns are those of the database: Beatmap (DifficultyName @2, Ruleset @3, Difficulty
/// @4, Metadata @5, BeatmapSet @7, OnlineID @9, Length @10, BPM @11, StarRating @13, MD5 @14,
/// TotalObjectCount @20), BeatmapSet (OnlineID @3, DateAdded @4, Files @8, Status @9),
/// BeatmapMetadata (Title @2, TitleUnicode @3, Artist @4, ArtistUnicode @5, Author @6,
/// AudioFile @11, BackgroundFile @12), File (hash @1), RealmNamedFileUsage (File @2,
/// Filename @3), BeatmapDifficulty (DrainRate @2, CircleSize @3, OverallDifficulty @4,
/// ApproachRate @5), RealmUser (Username @3) and Ruleset (ShortName @1).
pub open spec fn columns_of(c: LazerColumns, data: Seq<u8>) -> bool {
    let bm = opt_leaves_spec(data, "class_Beatmap"@);
    let st = opt_leaves_spec(data, "class_BeatmapSet"@);
    let md = opt_leaves_spec(data, "class_BeatmapMetadata"@);
    let fl = opt_leaves_spec(data, "class_File"@);
    let nru = opt_leaves_spec(data, "class_RealmNamedFileUsage"@);
    let bd = opt_leaves_spec(data, "class_BeatmapDifficulty"@);
    let us = opt_leaves_spec(data, "class_RealmUser"@);
    let rs = opt_leaves_spec(data, "class_Ruleset"@);
    &&& string_views(c.bm_version@) == col_strs(data, bm, 2)
    &&& c.bm_ruleset@ == col_ints(data, bm, 3)
    &&& c.bm_diff@ == col_ints(data, bm, 4)
    &&& c.bm_meta@ == col_ints(data, bm, 5)
    &&& c.bm_set@ == col_ints(data, bm, 7)
    &&& c.bm_online@ == col_ints(data, bm, 9)
    &&& c.bm_len@ == col_bits(data, bm, 10)
    &&& c.bm_bpm@ == col_bits(data, bm, 11)
    &&& c.bm_sr@ == col_bits(data, bm, 13)
    &&& string_views(c.bm_md5@) == col_strs(data, bm, 14)
    &&& c.bm_objects@ == col_ints(data, bm, 20)
    &&& c.set_online@ == col_ints(data, st, 3)
    &&& vec_views(c.set_files@) == col_lists(data, st, 8)
    &&& c.set_status@ == col_ints(data, st, 9)
    &&& c.set_date_added@ == col_stamps(data, st, 4)
    &&& string_views(c.md_title@) == col_strs(data, md, 2)
    &&& string_views(c.md_title_u@) == col_strs(data, md, 3)
    &&& string_views(c.md_artist@) == col_strs(data, md, 4)
    &&& string_views(c.md_artist_u@) == col_strs(data, md, 5)
    &&& c.md_author@ == col_ints(data, md, 6)
    &&& string_views(c.md_audio@) == col_strs(data, md, 11)
    &&& string_views(c.md_bg@) == col_strs(data, md, 12)
    &&& string_views(c.file_hashes@) == col_strs(data, fl, 1)
    &&& c.nru_file@ == col_ints(data, nru, 2)
    &&& string_views(c.nru_name@) == col_strs(data, nru, 3)
    &&& c.d_dr@ == col_bits(data, bd, 2)
    &&& c.d_cs@ == col_bits(data, bd, 3)
    &&& c.d_od@ == col_bits(data, bd, 4)
    &&& c.d_ar@ == col_bits(data, bd, 5)
    &&& string_views(c.user_name@) == col_strs(data, us, 3)
    &&& string_views(c.ruleset_short@) == col_strs(data, rs, 1)
}

/// `err.realmMissingTable|<name>`
pub open spec fn missing_table(name: Seq<char>) -> Seq<char> {
    crate::errcode::REALM_MISSING_TABLE@ + seq!['|'] + name
}

/// Reads the scan's columns; the Beatmap and BeatmapSet tables must exist (checked in that
/// order), the others may be missing and then read as empty.
pub fn read_columns(data: &[u8]) -> (r: Result<LazerColumns, String>)
    ensures
        locate_spec(data@, "class_Beatmap"@) is None ==> (r matches Err(e) && e@ == missing_table("class_Beatmap"@)),
        locate_spec(data@, "class_Beatmap"@) is Some && locate_spec(data@, "class_BeatmapSet"@) is None
            ==> (r matches Err(e) && e@ == missing_table("class_BeatmapSet"@)),
        locate_spec(data@, "class_Beatmap"@) is Some && locate_spec(data@, "class_BeatmapSet"@) is Some
            ==> (r matches Ok(c) && columns_of(c, data@)),
{
    if locate_table(data, "class_Beatmap").is_none() {
        return Err(crate::errcode::ec1(crate::errcode::REALM_MISSING_TABLE, "class_Beatmap"));
    }
    if locate_table(data, "class_BeatmapSet").is_none() {
        return Err(crate::errcode::ec1(crate::errcode::REALM_MISSING_TABLE, "class_BeatmapSet"));
    }
    let bm = opt_leaves(data, "class_Beatmap");
    let st = opt_leaves(data, "class_BeatmapSet");
    let md = opt_leaves(data, "class_BeatmapMetadata");
    let fl = opt_leaves(data, "class_File");
    let nru = opt_leaves(data, "class_RealmNamedFileUsage");
    let bd = opt_leaves(data, "class_BeatmapDifficulty");
    let us = opt_leaves(data, "class_RealmUser");
    let rs = opt_leaves(data, "class_Ruleset");
    Ok(LazerColumns {
        bm_version: read_col_strs(data, &bm, 2),
        bm_ruleset: read_col_ints(data, &bm, 3),
        bm_diff: read_col_ints(data, &bm, 4),
        bm_meta: read_col_ints(data, &bm, 5),
        bm_set: read_col_ints(data, &bm, 7),
        bm_online: read_col_ints(data, &bm, 9),
        bm_len: read_col_bits(data, &bm, 10),
        bm_bpm: read_col_bits(data, &bm, 11),
        bm_sr: read_col_bits(data, &bm, 13),
        bm_md5: read_col_strs(data, &bm, 14),
        bm_objects: read_col_ints(data, &bm, 20),
        set_online: read_col_ints(data, &st, 3),
        set_files: read_list_col(data, &st, 8),
        set_status: read_col_ints(data, &st, 9),
        set_date_added: read_timestamp_secs(data, &st, 4),
        md_title: read_col_strs(data, &md, 2),
        md_title_u: read_col_strs(data, &md, 3),
        md_artist: read_col_strs(data, &md, 4),
        md_artist_u: read_col_strs(data, &md, 5),
        md_author: read_col_ints(data, &md, 6),
        md_audio: read_col_strs(data, &md, 11),
        md_bg: read_col_strs(data, &md, 12),
        file_hashes: read_col_strs(data, &fl, 1),
        nru_file: read_col_ints(data, &nru, 2),
        nru_name: read_col_strs(data, &nru, 3),
        d_dr: read_col_bits(data, &bd, 2),
        d_cs: read_col_bits(data, &bd, 3),
        d_od: read_col_bits(data, &bd, 4),
        d_ar: read_col_bits(data, &bd, 5),
        user_name: read_col_strs(data, &us, 3),
        ruleset_short: read_col_strs(data, &rs, 1),
    })
}

} // verus!

verus! {

use crate::model::BeatmapStatus;

/// One difficulty as the lazer scan reads it; floating-point values are kept as raw bits
/// (`cs`, `ar`, `od`, `hp` as single precision, the others double).
#[derive(Debug)]
pub struct LazerDifficulty {
    pub beatmap_id: i64,
    pub mode: GameMode,
    pub version: String,
    pub creator: String,
    pub cs_bits: u32,
    pub ar_bits: u32,
    pub od_bits: u32,
    pub hp_bits: u32,
    pub bpm_bits: u64,
    pub length_bits: u64,
    pub object_count: u32,
    pub md5: Option<String>,
    pub star_bits: u64,
}

/// One beatmap set as the lazer scan reads it.
#[derive(Debug)]
pub struct LazerSet {
    pub beatmapset_id: i64,
    pub title: String,
    pub title_unicode: String,
    pub artist: String,
    pub artist_unicode: String,
    pub creator: String,
    pub difficulties: Vec<LazerDifficulty>,
    pub background: Option<String>,
    pub background_path: Option<String>,
    pub audio_filename: Option<String>,
    pub location: String,
    pub status: BeatmapStatus,
    pub date_added: Option<i64>,
}

/// Value `i` of a column, 0 past its end.
pub open spec fn get_u(s: Seq<u64>, i: int) -> u64 {
    if 0 <= i < s.len() { s[i] } else { 0 }
}

/// String `i` of a column, empty past its end.
pub open spec fn get_s(s: Seq<Seq<char>>, i: int) -> Seq<char> {
    if 0 <= i < s.len() { s[i] } else { Seq::empty() }
}

/// The 0-based row a 1-based link at `i` points to, -1 when absent or 0.
pub open spec fn link_of(s: Seq<u64>, i: int) -> int {
    if 0 <= i < s.len() && s[i] >= 1 { idx_spec((s[i] - 1) as u64) } else { -1 }
}

fn get_u_exec(s: &Vec<u64>, i: usize) -> (r: u64)
    ensures
        r == get_u(s@, i as int),
{
    if i < s.len() { s[i] } else { 0 }
}

fn get_s_exec(s: &Vec<String>, i: usize) -> (r: String)
    ensures
        r@ == get_s(string_views(s@), i as int),
{
    if i < s.len() {
        assert(string_views(s@)[i as int] == s@[i as int]@);
        s[i].clone()
    } else {
        String::new()
    }
}

fn link_exec(s: &Vec<u64>, i: usize) -> (r: Option<usize>)
    ensures
        match r {
            Some(v) => v as int == link_of(s@, i as int) && link_of(s@, i as int) >= 0,
            None => link_of(s@, i as int) == -1,
        },
{
    if i < s.len() && s[i] >= 1 { Some(idx(s[i] - 1)) } else { None }
}

/// What a difficulty row holds: its version, mode, creator (the set metadata's author), raw
/// values and MD5.
pub open spec fn diff_matches(d: LazerDifficulty, c: LazerColumns, bi: int, mi: int) -> bool {
    let di = link_of(c.bm_diff@, bi);
    let dix = if di >= 0 { di } else { usize::MAX as int };
    let rl = link_of(c.bm_ruleset@, bi);
    let au = link_of(c.md_author@, mi);
    &&& d.version@ == get_s(string_views(c.bm_version@), bi)
    &&& d.beatmap_id == sign_extend_i32_spec(get_u(c.bm_online@, bi))
    &&& d.mode == (if rl >= 0 && rl < c.ruleset_short@.len() { mode_spec(string_views(c.ruleset_short@)[rl]) } else { GameMode::Osu })
    &&& d.creator@ == (if au >= 0 { get_s(string_views(c.user_name@), au) } else { Seq::empty() })
    &&& d.cs_bits == get_u(c.d_cs@, dix) as u32
    &&& d.ar_bits == get_u(c.d_ar@, dix) as u32
    &&& d.od_bits == get_u(c.d_od@, dix) as u32
    &&& d.hp_bits == get_u(c.d_dr@, dix) as u32
    &&& d.bpm_bits == get_u(c.bm_bpm@, bi)
    &&& d.length_bits == get_u(c.bm_len@, bi)
    &&& d.star_bits == get_u(c.bm_sr@, bi)
    &&& d.object_count == get_u(c.bm_objects@, bi) as u32
    &&& (get_s(string_views(c.bm_md5@), bi).len() == 0 ==> d.md5 is None)
    &&& (d.md5 matches Some(m) ==> m@ == get_s(string_views(c.bm_md5@), bi))
    &&& (get_s(string_views(c.bm_md5@), bi).len() > 0 ==> d.md5 is Some)
}

pub open spec fn sign_extend_i32_spec(raw: u64) -> i64 {
    (raw as u32) as i32 as i64
}

/// The difficulty of row `bi` in a set whose metadata row is `mi`; none when it has no version
/// name.
pub fn make_difficulty(c: &LazerColumns, bi: usize, mi: usize) -> (r: Option<LazerDifficulty>)
    ensures
        get_s(string_views(c.bm_version@), bi as int).len() == 0 ==> r is None,
        get_s(string_views(c.bm_version@), bi as int).len() > 0 ==> (r matches Some(d) && diff_matches(d, *c, bi as int, mi as int)),
{
    let version = get_s_exec(&c.bm_version, bi);
    if version.as_str().is_empty() {
        return None;
    }
    let di: usize = match link_exec(&c.bm_diff, bi) {
        Some(v) => v,
        None => usize::MAX,
    };
    let mode = match link_exec(&c.bm_ruleset, bi) {
        Some(l) => {
            if l < c.ruleset_short.len() {
                assert(string_views(c.ruleset_short@)[l as int] == c.ruleset_short@[l as int]@);
                mode_from_shortname(c.ruleset_short[l].as_str())
            } else {
                GameMode::Osu
            }
        },
        None => GameMode::Osu,
    };
    let creator = match link_exec(&c.md_author, mi) {
        Some(l) => get_s_exec(&c.user_name, l),
        None => String::new(),
    };
    let md5s = get_s_exec(&c.bm_md5, bi);
    let md5 = if md5s.as_str().is_empty() { None } else { Some(md5s) };
    Some(LazerDifficulty {
        beatmap_id: sign_extend_i32(get_u_exec(&c.bm_online, bi)),
        mode,
        version,
        creator,
        cs_bits: get_u_exec(&c.d_cs, di) as u32,
        ar_bits: get_u_exec(&c.d_ar, di) as u32,
        od_bits: get_u_exec(&c.d_od, di) as u32,
        hp_bits: get_u_exec(&c.d_dr, di) as u32,
        bpm_bits: get_u_exec(&c.bm_bpm, bi),
        length_bits: get_u_exec(&c.bm_len, bi),
        object_count: get_u_exec(&c.bm_objects, bi) as u32,
        md5,
        star_bits: get_u_exec(&c.bm_sr, bi),
    })
}

} // verus!

verus! {

/// Name of the first named file with an audio extension.
pub open spec fn first_audio(named: Seq<(Seq<char>, u64)>) -> Option<Seq<char>>
    decreases named.len(),
{
    if named.len() == 0 {
        None
    } else if audio_name_spec(named[0].0) {
        Some(named[0].0)
    } else {
        first_audio(named.drop_first())
    }
}

/// A set's audio file: the metadata's audio file when it has an audio extension, else the
/// first named file that has one.
pub open spec fn audio_spec(md_audio: Seq<char>, named: Seq<(Seq<char>, u64)>) -> Option<Seq<char>> {
    if audio_name_spec(md_audio) { Some(md_audio) } else { first_audio(named) }
}

fn first_audio_exec(named: &Vec<(String, u64)>) -> (r: Option<usize>)
    ensures
        match first_audio(named_views(named@)) {
            Some(n) => r matches Some(i) && i < named@.len() && named@[i as int].0@ == n
                && audio_name_spec(n),
            None => r is None,
        },
{
    let ghost nv = named_views(named@);
    let mut i: usize = 0;
    assert(nv.skip(0) =~= nv);
    while i < named.len()
        invariant
            i <= named.len(),
            nv == named_views(named@),
            first_audio(nv) == first_audio(nv.skip(i as int)),
        decreases named.len() - i,
    {
        assert(nv.skip(i as int)[0] == (named@[i as int].0@, named@[i as int].1));
        assert(nv.skip(i as int).drop_first() =~= nv.skip(i + 1));
        if is_audio_filename(named[i].0.as_str()) {
            return Some(i);
        }
        i += 1;
    }
    None
}

/// The audio file of a set (see `audio_spec`).
pub fn audio_of(md_audio: &String, named: &Vec<(String, u64)>) -> (r: Option<String>)
    ensures
        match audio_spec(md_audio@, named_views(named@)) {
            Some(a) => r matches Some(s) && s@ == a,
            None => r is None,
        },
{
    if is_audio_filename(md_audio.as_str()) {
        return Some(md_audio.clone());
    }
    match first_audio_exec(named) {
        Some(i) => Some(named[i].0.clone()),
        None => None,
    }
}

/// The file id used to calibrate the set's drift: the named file matching the audio name (case
/// ignored), else the first audio file.
pub open spec fn anchor_spec(want: Seq<char>, named: Seq<(Seq<char>, u64)>) -> Option<u64>
    decreases named.len(),
{
    match anchor_exact(want, named) {
        Some(f) => Some(f),
        None => anchor_audio(named),
    }
}

pub open spec fn anchor_exact(want: Seq<char>, named: Seq<(Seq<char>, u64)>) -> Option<u64>
    decreases named.len(),
{
    if named.len() == 0 {
        None
    } else if want.len() > 0 && eq_ignore_ascii_case(named[0].0, want) {
        Some(named[0].1)
    } else {
        anchor_exact(want, named.drop_first())
    }
}

pub open spec fn anchor_audio(named: Seq<(Seq<char>, u64)>) -> Option<u64>
    decreases named.len(),
{
    if named.len() == 0 {
        None
    } else if audio_name_spec(named[0].0) {
        Some(named[0].1)
    } else {
        anchor_audio(named.drop_first())
    }
}

fn anchor_of(want: &str, named: &Vec<(String, u64)>) -> (r: Option<u64>)
    ensures
        r == anchor_spec(want@, named_views(named@)),
{
    let ghost nv = named_views(named@);
    let w = chars_of(want);
    let mut i: usize = 0;
    assert(nv.skip(0) =~= nv);
    while i < named.len()
        invariant
            i <= named.len(),
            nv == named_views(named@),
            w@ == want@,
            anchor_exact(want@, nv) == anchor_exact(want@, nv.skip(i as int)),
        decreases named.len() - i,
    {
        assert(nv.skip(i as int)[0] == (named@[i as int].0@, named@[i as int].1));
        assert(nv.skip(i as int).drop_first() =~= nv.skip(i + 1));
        if w.len() > 0 {
            let nm = chars_of(named[i].0.as_str());
            assert(nm@.subrange(0, nm.len() as int) =~= nm@);
            if eq_ignore_case_range(&nm, 0, nm.len(), &w) {
                return Some(named[i].1);
            }
        }
        i += 1;
    }
    let mut j: usize = 0;
    assert(nv.skip(0) =~= nv);
    while j < named.len()
        invariant
            j <= named.len(),
            nv == named_views(named@),
            anchor_exact(want@, nv) is None,
            anchor_audio(nv) == anchor_audio(nv.skip(j as int)),
        decreases named.len() - j,
    {
        assert(nv.skip(j as int)[0] == (named@[j as int].0@, named@[j as int].1));
        assert(nv.skip(j as int).drop_first() =~= nv.skip(j + 1));
        if is_audio_filename(named[j].0.as_str()) {
            return Some(named[j].1);
        }
        j += 1;
    }
    None
}

} // verus!

verus! {

use crate::text::int_text;

/// Canonical background names: `background.` with png, jpg, jpeg or webp.
pub open spec fn canonical_bg(lower: Seq<char>) -> bool {
    lower == "background.png"@ || lower == "background.jpg"@ || lower == "background.jpeg"@ || lower == "background.webp"@
}

/// Image extensions a background may have.
pub open spec fn image_ext(e: Seq<char>) -> bool {
    e == "png"@ || e == "jpg"@ || e == "jpeg"@ || e == "webp"@
}

pub open spec fn named_names(named: Seq<(Seq<char>, u64)>) -> Seq<Seq<char>> {
    named.map_values(|e: (Seq<char>, u64)| e.0)
}

/// No named file with an image extension among the first `k` was found by its lookup.
pub open spec fn image_failed<P: Fn(&str) -> Option<(Vec<u8>, String)>>(probe: P, hashes: Seq<Seq<char>>, named: Seq<(Seq<char>, u64)>, k: int) -> bool {
    forall|x: int| 0 <= x < k && image_ext(name_ext(named[x].0)) ==> #[trigger] lookup_failed(probe, hashes, named[x])
}

/// No named file with an image extension was found by its lookup.
pub open spec fn no_image_found<P: Fn(&str) -> Option<(Vec<u8>, String)>>(probe: P, hashes: Seq<Seq<char>>, named: Seq<(Seq<char>, u64)>) -> bool {
    image_failed(probe, hashes, named, named.len() as int)
}

/// No named file with a canonical background name among the first `k` was found by its lookup.
pub open spec fn canon_failed<P: Fn(&str) -> Option<(Vec<u8>, String)>>(probe: P, hashes: Seq<Seq<char>>, named: Seq<(Seq<char>, u64)>, k: int) -> bool {
    forall|x: int| 0 <= x < k && canonical_bg(lowercase(named[x].0)) ==> #[trigger] lookup_failed(probe, hashes, named[x])
}

/// Named file `f` was found by its lookup: a content row at most 12 rows before its file id
/// gave content fitting its name, at `path`.
pub open spec fn resolved_in<P: Fn(&str) -> Option<(Vec<u8>, String)>>(probe: P, hashes: Seq<Seq<char>>, f: (Seq<char>, u64), path: Seq<char>) -> bool {
    exists|row: int| row_hash_ok(hashes, row) && 0 <= f.1 - 1 - row <= 12 && f.1 - 1 <= i64::MAX
        && #[trigger] probed(probe, hashes[row], fits_name(f.0), path)
}

/// `r` is named file `i`, with a path where its lookup found it.
pub open spec fn picked<P: Fn(&str) -> Option<(Vec<u8>, String)>>(r: Option<(String, String)>, probe: P, hashes: Seq<Seq<char>>, named: Seq<(Seq<char>, u64)>, i: int) -> bool {
    0 <= i < named.len() && (r matches Some((n, p)) && n@ == named[i].0 && resolved_in(probe, hashes, named[i], p@))
}

/// Named file `j` is the first whose name is `want`, ASCII case ignored.
pub open spec fn want_at(want: Seq<char>, named: Seq<(Seq<char>, u64)>, j: int) -> bool {
    &&& 0 <= j < named.len()
    &&& want.len() > 0
    &&& eq_ignore_ascii_case(named[j].0, want)
    &&& forall|x: int| 0 <= x < j ==> !#[trigger] eq_ignore_ascii_case(named[x].0, want)
}

/// The metadata's background name gave nothing: it is empty, no named file has it, or the first
/// named file that has it was not found by its lookup.
pub open spec fn want_missed<P: Fn(&str) -> Option<(Vec<u8>, String)>>(probe: P, hashes: Seq<Seq<char>>, named: Seq<(Seq<char>, u64)>, want: Seq<char>) -> bool {
    ||| want.len() == 0
    ||| forall|x: int| 0 <= x < named.len() ==> !#[trigger] eq_ignore_ascii_case(named[x].0, want)
    ||| exists|j: int| #[trigger] want_at(want, named, j) && lookup_failed(probe, hashes, named[j])
}

/// The background of set `id`, in this order: the first file with a canonical background name
/// that its lookup finds; else the first file named as the metadata's background `want` (case
/// ignored), when its lookup finds it; else the first file with an image extension that its
/// lookup finds; else what the anchored search gives (`recovered`).
pub open spec fn bg_order<P, O>(r: Option<(String, String)>, probe: P, osu_set_id: O, hashes: Seq<Seq<char>>, named: Seq<(Seq<char>, u64)>, want: Seq<char>, id: i64) -> bool where
    P: Fn(&str) -> Option<(Vec<u8>, String)>,
    O: Fn(&String) -> i64,
{
    ||| exists|i: int| #[trigger] picked(r, probe, hashes, named, i) && canonical_bg(lowercase(named[i].0)) && canon_failed(probe, hashes, named, i)
    ||| canon_failed(probe, hashes, named, named.len() as int) && (
        (exists|j: int| #[trigger] want_at(want, named, j) && picked(r, probe, hashes, named, j))
        || (want_missed(probe, hashes, named, want) && (
            (exists|k: int| #[trigger] picked(r, probe, hashes, named, k) && image_ext(name_ext(named[k].0)) && image_failed(probe, hashes, named, k))
            || (image_failed(probe, hashes, named, named.len() as int) && recovered(r, probe, osu_set_id, hashes, named, want, id)))))
}

/// A background found for a set: a named file of the set or the metadata's background file,
/// whose content was seen to fit its name.
pub open spec fn bg_ok<P: Fn(&str) -> Option<(Vec<u8>, String)>>(bg: Option<(String, String)>, probe: P, hashes: Seq<Seq<char>>, named: Seq<(Seq<char>, u64)>, want: Seq<char>) -> bool {
    bg matches Some((n, p)) ==> (named_names(named).contains(n@) || n@ == want) && found_in_rows(probe, hashes, n@, p@)
}

fn is_canonical_bg(name: &String) -> (b: bool)
    ensures
        b == canonical_bg(lowercase(name@)),
{
    let l = to_lower(name.as_str());
    str_eq(l.as_str(), "background.png") || str_eq(l.as_str(), "background.jpg") || str_eq(l.as_str(), "background.jpeg")
        || str_eq(l.as_str(), "background.webp")
}

fn has_image_ext(name: &String) -> (b: bool)
    ensures
        b == image_ext(name_ext(name@)),
{
    let v = chars_of(name.as_str());
    assert(v@.subrange(0, v.len() as int) =~= v@);
    let from: usize = match last_index(&v, 0, v.len(), '.') {
        Some(d) => d + 1,
        None => 0,
    };
    assert(v@.subrange(from as int, v.len() as int) =~= (if last_index_of(v@, '.') < 0 { v@ } else { v@.skip(last_index_of(v@, '.') + 1) }));
    let raw = string_of_range(&v, from, v.len());
    let e = to_lower(raw.as_str());
    str_eq(e.as_str(), "png") || str_eq(e.as_str(), "jpg") || str_eq(e.as_str(), "jpeg") || str_eq(e.as_str(), "webp")
}

proof fn lemma_resolved_found<P: Fn(&str) -> Option<(Vec<u8>, String)>>(probe: P, hashes: Seq<Seq<char>>, row: int, name: Seq<char>, path: Seq<char>)
    requires
        row_hash_ok(hashes, row),
        probed(probe, hashes[row], fits_name(name), path),
    ensures
        found_in_rows(probe, hashes, name, path),
{
}

/// Index of the first named file whose name is `want`, ASCII case ignored (`want_at`).
fn want_index(named: &Vec<(String, u64)>, want: &String) -> (r: Option<usize>)
    ensures
        r matches Some(j) ==> want_at(want@, named_views(named@), j as int),
        r is None ==> want@.len() == 0 || forall|x: int| 0 <= x < named@.len() ==> !#[trigger] eq_ignore_ascii_case(named_views(named@)[x].0, want@),
{
    let ghost nv = named_views(named@);
    if want.as_str().is_empty() {
        return None;
    }
    let w = chars_of(want.as_str());
    let mut j: usize = 0;
    while j < named.len()
        invariant
            j <= named.len(),
            nv == named_views(named@),
            w@ == want@,
            want@.len() > 0,
            forall|x: int| 0 <= x < j ==> !#[trigger] eq_ignore_ascii_case(nv[x].0, want@),
        decreases named.len() - j,
    {
        assert(nv[j as int].0 == named@[j as int].0@);
        let nm = chars_of(named[j].0.as_str());
        assert(nm@.subrange(0, nm.len() as int) =~= nm@);
        if eq_ignore_case_range(&nm, 0, nm.len(), &w) {
            return Some(j);
        }
        j += 1;
    }
    None
}

/// A set's background (`bg_order`): a file named `background.(png|jpg|jpeg|webp)`; else the
/// metadata's background file; else any file with an image extension; else a block search
/// anchored on the set's own `.osu` files. Each candidate counts only when its content fits its
/// name.
pub fn background_of<P, O>(
    hashes: &Vec<String>,
    probe: &P,
    osu_set_id: &O,
    named: &Vec<(String, u64)>,
    want: &String,
    d0: i64,
    set_id: i64,
) -> (r: Option<(String, String)>) where
    P: Fn(&str) -> Option<(Vec<u8>, String)>,
    O: Fn(&String) -> i64,

    requires
        forall|s: &str| probe.requires((s,)),
        forall|p: &String| osu_set_id.requires((p,)),
    ensures
        bg_order(r, *probe, *osu_set_id, string_views(hashes@), named_views(named@), want@, set_id),
        bg_ok(r, *probe, string_views(hashes@), named_views(named@), want@),
        r is None ==> no_image_found(*probe, string_views(hashes@), named_views(named@)),
{
    let ghost nv = named_views(named@);
    let ghost hs = string_views(hashes@);
    let mut i: usize = 0;
    while i < named.len()
        invariant
            i <= named.len(),
            nv == named_views(named@),
            hs == string_views(hashes@),
            forall|s: &str| probe.requires((s,)),
            canon_failed(*probe, hs, nv, i as int),
        decreases named.len() - i,
    {
        assert(nv[i as int] == (named@[i as int].0@, named@[i as int].1));
        if is_canonical_bg(&named[i].0) {
            match resolve_at(hashes, probe, named[i].1, named[i].0.as_str(), d0, 12) {
                Some((row, p)) => {
                    let r = Some((named[i].0.clone(), p));
                    proof {
                        lemma_resolved_found(*probe, hs, row as int, nv[i as int].0, p@);
                        assert(named_names(nv)[i as int] == named@[i as int].0@);
                        assert(probed(*probe, hs[row as int], fits_name(nv[i as int].0), p@));
                        assert(picked(r, *probe, hs, nv, i as int));
                    }
                    return r;
                },
                None => {
                    assert(lookup_failed(*probe, hs, nv[i as int]));
                },
            }
        }
        i += 1;
    }
    match want_index(named, want) {
        Some(j) => {
            assert(nv[j as int] == (named@[j as int].0@, named@[j as int].1));
            match resolve_at(hashes, probe, named[j].1, named[j].0.as_str(), d0, 12) {
                Some((row, p)) => {
                    let r = Some((named[j].0.clone(), p));
                    proof {
                        lemma_resolved_found(*probe, hs, row as int, nv[j as int].0, p@);
                        assert(named_names(nv)[j as int] == named@[j as int].0@);
                        assert(probed(*probe, hs[row as int], fits_name(nv[j as int].0), p@));
                        assert(picked(r, *probe, hs, nv, j as int));
                        assert(want_at(want@, nv, j as int));
                    }
                    return r;
                },
                None => {
                    assert(lookup_failed(*probe, hs, nv[j as int]));
                    assert(want_at(want@, nv, j as int));
                },
            }
        },
        None => {},
    }
    assert(want_missed(*probe, hs, nv, want@));
    let mut k: usize = 0;
    while k < named.len()
        invariant
            k <= named.len(),
            nv == named_views(named@),
            hs == string_views(hashes@),
            forall|s: &str| probe.requires((s,)),
            canon_failed(*probe, hs, nv, nv.len() as int),
            want_missed(*probe, hs, nv, want@),
            image_failed(*probe, hs, nv, k as int),
        decreases named.len() - k,
    {
        assert(nv[k as int] == (named@[k as int].0@, named@[k as int].1));
        if has_image_ext(&named[k].0) {
            match resolve_at(hashes, probe, named[k].1, named[k].0.as_str(), d0, 12) {
                Some((row, p)) => {
                    let r = Some((named[k].0.clone(), p));
                    proof {
                        lemma_resolved_found(*probe, hs, row as int, nv[k as int].0, p@);
                        assert(named_names(nv)[k as int] == named@[k as int].0@);
                        assert(probed(*probe, hs[row as int], fits_name(nv[k as int].0), p@));
                        assert(picked(r, *probe, hs, nv, k as int));
                    }
                    return r;
                },
                None => {
                    assert(lookup_failed(*probe, hs, nv[k as int]));
                },
            }
        }
        k += 1;
    }
    let r = recover_bg_by_osu_anchor(hashes, probe, osu_set_id, named, d0, want.as_str(), set_id);
    assert(recovered(r, *probe, *osu_set_id, hs, nv, want@, set_id));
    r
}

} // verus!

verus! {

/// Rows among the first `n` of the Beatmap table whose (1-based) set link is set `sj`, of
/// `set_count` sets.
pub open spec fn rows_of_set(bm_set: Seq<u64>, set_count: int, sj: int, n: int) -> Seq<int>
    decreases n,
{
    if n <= 0 {
        Seq::empty()
    } else {
        let g = rows_of_set(bm_set, set_count, sj, n - 1);
        if 1 <= bm_set[n - 1] <= set_count && bm_set[n - 1] - 1 == sj {
            g.push(n - 1)
        } else {
            g
        }
    }
}

pub open spec fn usize_ints(s: Seq<usize>) -> Seq<int> {
    s.map_values(|x: usize| x as int)
}

/// Number of set slots a scan walks: the set count, at least one.
pub open spec fn slots(set_count: int) -> int {
    if set_count == 0 { 1 } else { set_count }
}

/// Beatmap rows grouped by the set they link to, in row order.
fn group_rows(bm_set: &Vec<u64>, set_count: usize) -> (r: Vec<Vec<usize>>)
    ensures
        r@.len() == slots(set_count as int),
        forall|sj: int| 0 <= sj < r@.len() ==> usize_ints(#[trigger] r@[sj]@) == rows_of_set(bm_set@, set_count as int, sj, bm_set@.len() as int),
{
    let n: usize = if set_count == 0 { 1 } else { set_count };
    let mut per: Vec<Vec<usize>> = Vec::new();
    while per.len() < n
        invariant
            per@.len() <= n,
            forall|sj: int| 0 <= sj < per@.len() ==> (#[trigger] per@[sj])@.len() == 0,
        decreases n - per@.len(),
    {
        per.push(Vec::new());
    }
    let mut i: usize = 0;
    while i < bm_set.len()
        invariant
            i <= bm_set.len(),
            per@.len() == n,
            n == slots(set_count as int),
            forall|sj: int| 0 <= sj < n ==> usize_ints(#[trigger] per@[sj]@) == rows_of_set(bm_set@, set_count as int, sj, i as int),
        decreases bm_set.len() - i,
    {
        let l = bm_set[i];
        let ghost old_per = per@;
        if l >= 1 && l <= set_count as u64 {
            let k = (l - 1) as usize;
            per[k].push(i);
            assert forall|sj: int| 0 <= sj < n implies usize_ints(#[trigger] per@[sj]@) == rows_of_set(bm_set@, set_count as int, sj, i + 1) by {
                if sj == k {
                    assert(usize_ints(per@[sj]@) =~= usize_ints(old_per[sj]@).push(i as int));
                }
            }
        } else {
            assert forall|sj: int| 0 <= sj < n implies usize_ints(#[trigger] per@[sj]@) == rows_of_set(bm_set@, set_count as int, sj, i + 1) by {
                assert(per@[sj] == old_per[sj]);
            }
        }
        i += 1;
    }
    per
}

} // verus!

verus! {

use crate::text::push_i64;

/// The rows among `rows` whose difficulty has a version name, in order.
pub open spec fn with_version(versions: Seq<Seq<char>>, rows: Seq<int>) -> Seq<int>
    decreases rows.len(),
{
    if rows.len() == 0 {
        Seq::empty()
    } else {
        let prev = with_version(versions, rows.drop_last());
        if get_s(versions, rows.last()).len() > 0 { prev.push(rows.last()) } else { prev }
    }
}

/// A set with these difficulty rows is listed: it has a difficulty, its first difficulty links
/// to metadata, and one of its difficulties has a version name.
pub open spec fn set_listed(c: LazerColumns, g: Seq<int>) -> bool {
    g.len() > 0 && link_of(c.bm_meta@, g[0]) >= 0 && with_version(string_views(c.bm_version@), g).len() > 0
}

/// The Files list of set `sj`, empty past the column's end.
pub open spec fn set_files_of(c: LazerColumns, sj: int) -> Seq<u64> {
    if 0 <= sj < c.set_files@.len() { c.set_files@[sj]@ } else { Seq::empty() }
}

/// The named files of set `sj`.
pub open spec fn set_named(c: LazerColumns, sj: int) -> Seq<(Seq<char>, u64)> {
    named_spec(set_files_of(c, sj), string_views(c.nru_name@), c.nru_file@)
}

/// Status of set `sj`: the low byte of its status value read as signed, unknown when absent.
pub open spec fn set_status_of(c: LazerColumns, sj: int) -> BeatmapStatus {
    if 0 <= sj < c.set_status@.len() {
        BeatmapStatus::spec_from_lazer_numeric(((c.set_status@[sj] % 256) as u8) as i8 as int)
    } else {
        BeatmapStatus::Unknown
    }
}

/// A set's background with its path, when it has one.
pub open spec fn bg_pair(s: LazerSet) -> Option<(String, String)> {
    match (s.background, s.background_path) {
        (Some(n), Some(p)) => Some((n, p)),
        _ => None,
    }
}

/// A set's background and its path come together, and they are the one `bg_order` picks; a
/// background is a named file of the set or its metadata's background file, and its content was
/// seen to fit its name.
pub open spec fn set_bg_ok<P, O>(s: LazerSet, probe: P, osu_set_id: O, hashes: Seq<Seq<char>>, named: Seq<(Seq<char>, u64)>, want: Seq<char>) -> bool where
    P: Fn(&str) -> Option<(Vec<u8>, String)>,
    O: Fn(&String) -> i64,
{
    &&& (s.background is Some) == (s.background_path is Some)
    &&& bg_order(bg_pair(s), probe, osu_set_id, hashes, named, want, s.beatmapset_id)
    &&& (s.background matches Some(n) ==> s.background_path matches Some(p)
        && (named_names(named).contains(n@) || n@ == want) && found_in_rows(probe, hashes, n@, p@))
    &&& (s.background is None ==> no_image_found(probe, hashes, named))
}

/// What the scan makes of set `sj` whose difficulty rows are `g`.
pub open spec fn set_matches<P, O>(s: LazerSet, c: LazerColumns, sj: int, g: Seq<int>, probe: P, osu_set_id: O) -> bool where
    P: Fn(&str) -> Option<(Vec<u8>, String)>,
    O: Fn(&String) -> i64,
{
    let mi = link_of(c.bm_meta@, g[0]);
    let rows = with_version(string_views(c.bm_version@), g);
    let named = set_named(c, sj);
    &&& s.beatmapset_id == sign_extend_i32_spec(get_u(c.set_online@, sj))
    &&& s.title@ == get_s(string_views(c.md_title@), mi)
    &&& s.title_unicode@ == get_s(string_views(c.md_title_u@), mi)
    &&& s.artist@ == get_s(string_views(c.md_artist@), mi)
    &&& s.artist_unicode@ == get_s(string_views(c.md_artist_u@), mi)
    &&& s.difficulties@.len() == rows.len()
    &&& (forall|k: int| 0 <= k < rows.len() ==> diff_matches(#[trigger] s.difficulties@[k], c, rows[k], mi))
    &&& s.creator@ == s.difficulties@[0].creator@
    &&& s.location@ == int_text(s.beatmapset_id as int)
    &&& s.status == set_status_of(c, sj)
    &&& s.date_added == (if 0 <= sj < c.set_date_added@.len() { c.set_date_added@[sj] } else { None })
    &&& (match audio_spec(get_s(string_views(c.md_audio@), mi), named) {
        Some(a) => s.audio_filename matches Some(x) && x@ == a,
        None => s.audio_filename is None,
    })
    &&& set_bg_ok(s, probe, osu_set_id, string_views(c.file_hashes@), named, get_s(string_views(c.md_bg@), mi))
}

fn diffs_of(c: &LazerColumns, g: &Vec<usize>, mi: usize) -> (r: Vec<LazerDifficulty>)
    ensures
        r@.len() == with_version(string_views(c.bm_version@), usize_ints(g@)).len(),
        forall|k: int| 0 <= k < r@.len() ==> diff_matches(#[trigger] r@[k], *c, with_version(string_views(c.bm_version@), usize_ints(g@))[k], mi as int),
{
    let ghost vs = string_views(c.bm_version@);
    let mut out: Vec<LazerDifficulty> = Vec::new();
    let mut i: usize = 0;
    while i < g.len()
        invariant
            i <= g.len(),
            vs == string_views(c.bm_version@),
            out@.len() == with_version(vs, usize_ints(g@).take(i as int)).len(),
            forall|k: int| 0 <= k < out@.len() ==> diff_matches(#[trigger] out@[k], *c, with_version(vs, usize_ints(g@).take(i as int))[k], mi as int),
        decreases g.len() - i,
    {
        let ghost before = out@;
        assert(usize_ints(g@).take(i + 1).drop_last() =~= usize_ints(g@).take(i as int));
        assert(usize_ints(g@).take(i + 1).last() == g@[i as int] as int);
        match make_difficulty(c, g[i], mi) {
            Some(d) => {
                out.push(d);
                assert forall|k: int| 0 <= k < out@.len() implies diff_matches(#[trigger] out@[k], *c, with_version(vs, usize_ints(g@).take(i + 1))[k], mi as int) by {
                    if k < out@.len() - 1 {
                        assert(out@[k] == before[k]);
                    }
                }
            },
            None => {},
        }
        i += 1;
    }
    assert(usize_ints(g@).take(g.len() as int) =~= usize_ints(g@));
    out
}

} // verus!

verus! {

/// The set of slot `sj` whose difficulty rows are `g`; none when it is not listed
/// (`set_listed`).
pub fn assemble_set<P, O>(c: &LazerColumns, sj: usize, g: &Vec<usize>, probe: &P, osu_set_id: &O) -> (r: Option<LazerSet>) where
    P: Fn(&str) -> Option<(Vec<u8>, String)>,
    O: Fn(&String) -> i64,

    requires
        forall|s: &str| probe.requires((s,)),
        forall|p: &String| osu_set_id.requires((p,)),
    ensures
        !set_listed(*c, usize_ints(g@)) ==> r is None,
        set_listed(*c, usize_ints(g@)) ==> (r matches Some(s) && set_matches(s, *c, sj as int, usize_ints(g@), *probe, *osu_set_id)),
{
    if g.len() == 0 {
        return None;
    }
    let mi = match link_exec(&c.bm_meta, g[0]) {
        Some(m) => m,
        None => return None,
    };
    let empty: Vec<u64> = Vec::new();
    let files: &Vec<u64> = if sj < c.set_files.len() { &c.set_files[sj] } else { &empty };
    let named = set_named_files(files.as_slice(), &c.nru_name, &c.nru_file);
    let md_audio = get_s_exec(&c.md_audio, mi);
    let audio = audio_of(&md_audio, &named);
    let online_id = sign_extend_i32(get_u_exec(&c.set_online, sj));
    let want_audio: String = match &audio {
        Some(a) => a.clone(),
        None => String::new(),
    };
    let d0: i64 = match anchor_of(want_audio.as_str(), &named) {
        Some(fid) => calibrate_drift(&c.file_hashes, probe, fid),
        None => 0,
    };
    let want_bg = get_s_exec(&c.md_bg, mi);
    let bg = background_of(&c.file_hashes, probe, osu_set_id, &named, &want_bg, d0, online_id);
    let difficulties = diffs_of(c, g, mi);
    if difficulties.len() == 0 {
        return None;
    }
    let status = if sj < c.set_status.len() {
        BeatmapStatus::from_lazer_numeric(sign_extend_i8(c.set_status[sj]))
    } else {
        BeatmapStatus::Unknown
    };
    let date_added: Option<i64> = if sj < c.set_date_added.len() { c.set_date_added[sj] } else { None };
    let creator = difficulties[0].creator.clone();
    let mut location = String::new();
    push_i64(&mut location, online_id);
    let (background, background_path) = match bg {
        Some((n, p)) => (Some(n), Some(p)),
        None => (None, None),
    };
    Some(LazerSet {
        beatmapset_id: online_id,
        title: get_s_exec(&c.md_title, mi),
        title_unicode: get_s_exec(&c.md_title_u, mi),
        artist: get_s_exec(&c.md_artist, mi),
        artist_unicode: get_s_exec(&c.md_artist_u, mi),
        creator,
        difficulties,
        background,
        background_path,
        audio_filename: audio,
        location,
        status,
        date_added,
    })
}

} // verus!

verus! {

/// Difficulty rows of set slot `sj`.
pub open spec fn group_of(c: LazerColumns, sj: int) -> Seq<int> {
    rows_of_set(c.bm_set@, c.set_online@.len() as int, sj, c.bm_set@.len() as int)
}

/// The listed set slots among the first `n`, in order.
pub open spec fn listed_upto(c: LazerColumns, n: int) -> Seq<int>
    decreases n,
{
    if n <= 0 {
        Seq::empty()
    } else {
        let prev = listed_upto(c, n - 1);
        if set_listed(c, group_of(c, n - 1)) { prev.push(n - 1) } else { prev }
    }
}

/// The listed set slots of a scan.
pub open spec fn listed_slots(c: LazerColumns) -> Seq<int> {
    listed_upto(c, slots(c.set_online@.len() as int))
}

/// The sets a scan lists from its columns, in slot order.
pub open spec fn scan_matches<P, O>(r: Seq<LazerSet>, c: LazerColumns, probe: P, osu_set_id: O) -> bool where
    P: Fn(&str) -> Option<(Vec<u8>, String)>,
    O: Fn(&String) -> i64,
{
    &&& r.len() == listed_slots(c).len()
    &&& forall|k: int| 0 <= k < r.len() ==> set_matches(#[trigger] r[k], c, listed_slots(c)[k], group_of(c, listed_slots(c)[k]), probe, osu_set_id)
}

/// Progress step reported after set slot `sj` of `n`: `6 + min(3, 3 * sj / n)`.
pub open spec fn step_spec(sj: int, n: int) -> int {
    let d = if n == 0 { 1 } else { n };
    let q = (sj * 3) / d;
    6 + if q > 3 { 3 } else { q }
}

/// Progress step reported after set slot `sj` of `n`: 6 to 9.
fn progress_step(sj: usize, n: usize) -> (p: u32)
    ensures
        p as int == step_spec(sj as int, n as int),
        6 <= p <= 9,
{
    let d: u128 = if n == 0 { 1 } else { n as u128 };
    let q: u128 = (sj as u128 * 3) / d;
    let m: u128 = if q > 3 { 3 } else { q };
    6 + m as u32
}

proof fn lemma_step_mono(a: int, b: int, n: int)
    requires
        0 <= a <= b,
        0 <= n,
    ensures
        step_spec(a, n) <= step_spec(b, n),
{
    let d = if n == 0 { 1 } else { n };
    assert((a * 3) / d <= (b * 3) / d) by (nonlinear_arith)
        requires
            0 <= a <= b,
            d > 0,
    ;
}

/// Progress steps out of 10, in order: every step between `lo` and `hi`, never going back.
pub open spec fn steps_between(s: Seq<(u32, u32)>, lo: int, hi: int) -> bool {
    &&& forall|i: int| 0 <= i < s.len() ==> (#[trigger] s[i]).1 == 10 && lo <= s[i].0 <= hi
    &&& forall|i: int, j: int| 0 <= i <= j < s.len() ==> (#[trigger] s[i]).0 <= (#[trigger] s[j]).0
}

/// The steps a scan reports: first `(1, 10)`, last `(10, 10)`, every one out of 10 between 1 and
/// 10, never going back.
pub open spec fn scan_steps_ok(s: Seq<(u32, u32)>) -> bool {
    &&& s.len() >= 2
    &&& s[0] == (1u32, 10u32)
    &&& s.last() == (10u32, 10u32)
    &&& steps_between(s, 1, 10)
}

/// Lists the sets of the columns: the difficulties are grouped by the set they link to, and
/// each listed set slot (`set_listed`) gives one set (`assemble_set`). `progress` is told of
/// the walk every 128 slots.
pub fn scan_columns<P, O, F>(c: &LazerColumns, probe: &P, osu_set_id: &O, progress: &F, steps: &mut Vec<(u32, u32)>) -> (r: Vec<LazerSet>) where
    P: Fn(&str) -> Option<(Vec<u8>, String)>,
    O: Fn(&String) -> i64,
    F: Fn(u32, u32),

    requires
        forall|s: &str| probe.requires((s,)),
        forall|p: &String| osu_set_id.requires((p,)),
        forall|a: u32, b: u32| progress.requires((a, b)),
    ensures
        scan_matches(r@, *c, *probe, *osu_set_id),
        final(steps)@.len() >= old(steps)@.len(),
        final(steps)@.take(old(steps)@.len() as int) == old(steps)@,
        steps_between(final(steps)@.skip(old(steps)@.len() as int), 6, 9),
{
    let ghost s0 = steps@;
    assert(steps@.skip(s0.len() as int) =~= Seq::<(u32, u32)>::empty());
    let set_count = c.set_online.len();
    let per = group_rows(&c.bm_set, set_count);
    let mut out: Vec<LazerSet> = Vec::new();
    let mut sj: usize = 0;
    while sj < per.len()
        invariant
            sj <= per@.len(),
            per@.len() == slots(set_count as int),
            set_count == c.set_online@.len(),
            forall|j: int| 0 <= j < per@.len() ==> usize_ints(#[trigger] per@[j]@) == group_of(*c, j),
            forall|s: &str| probe.requires((s,)),
            forall|p: &String| osu_set_id.requires((p,)),
            forall|a: u32, b: u32| progress.requires((a, b)),
            out@.len() == listed_upto(*c, sj as int).len(),
            steps@.len() >= s0.len(),
            steps@.take(s0.len() as int) == s0,
            steps_between(steps@.skip(s0.len() as int), 6, 9),
            forall|i: int| 0 <= i < steps@.skip(s0.len() as int).len() ==> (#[trigger] steps@.skip(s0.len() as int)[i]).0 <= step_spec(sj as int, set_count as int),
            forall|k: int| 0 <= k < out@.len() ==> set_matches(#[trigger] out@[k], *c, listed_upto(*c, sj as int)[k], group_of(*c, listed_upto(*c, sj as int)[k]), *probe, *osu_set_id),
        decreases per@.len() - sj,
    {
        assert(usize_ints(per@[sj as int]@) == group_of(*c, sj as int));
        let ghost before = out@;
        match assemble_set(c, sj, &per[sj], probe, osu_set_id) {
            Some(s) => {
                out.push(s);
                assert forall|k: int| 0 <= k < out@.len() implies set_matches(#[trigger] out@[k], *c, listed_upto(*c, sj + 1)[k], group_of(*c, listed_upto(*c, sj + 1)[k]), *probe, *osu_set_id) by {
                    if k < before.len() {
                        assert(out@[k] == before[k]);
                    }
                }
                if sj % 128 == 0 {
                    let st = progress_step(sj, set_count);
                    progress(st, 10);
                    let ghost sb = steps@;
                    steps.push((st, 10));
                    proof {
                        assert(steps@.take(s0.len() as int) =~= sb.take(s0.len() as int));
                        assert(steps@.skip(s0.len() as int) =~= sb.skip(s0.len() as int).push((st, 10u32)));
                    }
                }
            },
            None => {},
        }
        proof {
            lemma_step_mono(sj as int, sj + 1, set_count as int);
        }
        sj += 1;
    }
    out
}

/// Scans a lazer database image: the Beatmap and BeatmapSet tables must exist (else the error
/// of `read_columns`); the sets are those of `scan_columns` over the columns read.
pub fn scan_lazer<P, O, F>(data: &[u8], probe: &P, osu_set_id: &O, progress: &F, steps: &mut Vec<(u32, u32)>) -> (r: Result<Vec<LazerSet>, String>) where
    P: Fn(&str) -> Option<(Vec<u8>, String)>,
    O: Fn(&String) -> i64,
    F: Fn(u32, u32),

    requires
        forall|s: &str| probe.requires((s,)),
        forall|p: &String| osu_set_id.requires((p,)),
        forall|a: u32, b: u32| progress.requires((a, b)),
    ensures
        locate_spec(data@, "class_Beatmap"@) is None ==> (r matches Err(e) && e@ == missing_table("class_Beatmap"@)),
        locate_spec(data@, "class_Beatmap"@) is Some && locate_spec(data@, "class_BeatmapSet"@) is None
            ==> (r matches Err(e) && e@ == missing_table("class_BeatmapSet"@)),
        locate_spec(data@, "class_Beatmap"@) is Some && locate_spec(data@, "class_BeatmapSet"@) is Some
            ==> (r matches Ok(v) && scanned(data@, v@, *probe, *osu_set_id)),
        r is Err ==> final(steps)@ == old(steps)@.push((1u32, 10u32)),
        r is Ok ==> final(steps)@.len() >= old(steps)@.len() + 2
            && final(steps)@.take(old(steps)@.len() as int) == old(steps)@
            && scan_steps_ok(final(steps)@.skip(old(steps)@.len() as int)),
{
    let ghost s0 = steps@;
    progress(1, 10);
    steps.push((1, 10));
    let c = match read_columns(data) {
        Ok(c) => c,
        Err(e) => return Err(e),
    };
    let mut k: u32 = 2;
    while k <= 6
        invariant
            2 <= k <= 7,
            forall|a: u32, b: u32| progress.requires((a, b)),
            steps@.len() == s0.len() + k - 1,
            steps@.take(s0.len() as int) == s0,
            forall|i: int| 0 <= i < k - 1 ==> #[trigger] steps@.skip(s0.len() as int)[i] == ((i + 1) as u32, 10u32),
        decreases 7 - k,
    {
        progress(k, 10);
        let ghost sb = steps@;
        steps.push((k, 10));
        proof {
            assert(steps@.take(s0.len() as int) =~= sb.take(s0.len() as int));
            assert forall|i: int| 0 <= i < k implies #[trigger] steps@.skip(s0.len() as int)[i] == ((i + 1) as u32, 10u32) by {
                if i < k - 1 {
                    assert(steps@.skip(s0.len() as int)[i] == sb.skip(s0.len() as int)[i]);
                }
            }
        }
        k += 1;
    }
    let ghost s1 = steps@;
    let sets = scan_columns(&c, probe, osu_set_id, progress, steps);
    progress(10, 10);
    let ghost s2 = steps@;
    steps.push((10, 10));
    proof {
        lemma_scan_steps(s0, s1, s2, steps@);
    }
    Ok(sets)
}

proof fn lemma_scan_steps(s0: Seq<(u32, u32)>, s1: Seq<(u32, u32)>, s2: Seq<(u32, u32)>, s3: Seq<(u32, u32)>)
    requires
        s1.len() == s0.len() + 6,
        s1.take(s0.len() as int) == s0,
        forall|i: int| 0 <= i < 6 ==> #[trigger] s1.skip(s0.len() as int)[i] == ((i + 1) as u32, 10u32),
        s2.len() >= s1.len(),
        s2.take(s1.len() as int) == s1,
        steps_between(s2.skip(s1.len() as int), 6, 9),
        s3 == s2.push((10u32, 10u32)),
    ensures
        s3.len() >= s0.len() + 2,
        s3.take(s0.len() as int) == s0,
        scan_steps_ok(s3.skip(s0.len() as int)),
{
    let t1 = s1.skip(s0.len() as int);
    let t2 = s2.skip(s1.len() as int);
    let t = s3.skip(s0.len() as int);
    assert(s3.take(s0.len() as int) =~= s0) by {
        assert forall|i: int| 0 <= i < s0.len() implies s3[i] == s0[i] by {
            assert(s2[i] == s2.take(s1.len() as int)[i]);
            assert(s1[i] == s1.take(s0.len() as int)[i]);
        }
    }
    assert(s2 =~= s1 + t2) by {
        assert forall|i: int| 0 <= i < s1.len() implies s2[i] == s1[i] by {
            assert(s2[i] == s2.take(s1.len() as int)[i]);
        }
    }
    assert(t =~= t1 + t2 + seq![(10u32, 10u32)]);
    assert(t[0] == t1[0]);
    assert forall|i: int| 0 <= i < t.len() implies (#[trigger] t[i]).1 == 10 && 1 <= t[i].0 <= 10 by {
        if i < 6 {
            assert(t[i] == t1[i]);
        } else if i < 6 + t2.len() {
            assert(t[i] == t2[i - 6]);
        }
    }
    assert forall|i: int, j: int| 0 <= i <= j < t.len() implies (#[trigger] t[i]).0 <= (#[trigger] t[j]).0 by {
        if i < 6 {
            assert(t[i] == t1[i]);
        } else if i < 6 + t2.len() {
            assert(t[i] == t2[i - 6]);
        }
        if j < 6 {
            assert(t[j] == t1[j]);
        } else if j < 6 + t2.len() {
            assert(t[j] == t2[j - 6]);
        }
    }
}

/// The sets are those listed from some columns read from `data`.
pub open spec fn scanned<P, O>(data: Seq<u8>, v: Seq<LazerSet>, probe: P, osu_set_id: O) -> bool where
    P: Fn(&str) -> Option<(Vec<u8>, String)>,
    O: Fn(&String) -> i64,
{
    exists|c: LazerColumns| columns_of(c, data) && #[trigger] scan_matches(v, c, probe, osu_set_id)
}

} // verus!

verus! {

/// One set's files for conversion: (file name, content path), names distinct ignoring case.
#[derive(Debug)]
pub struct LazerSetFileIndex {
    pub online_id: i64,
    pub title: String,
    pub artist: String,
    pub files: Vec<(String, String)>,
}

/// Metadata row of the first difficulty (among the first `n` rows) that links set slot `sj`
/// of `nslots` and has a metadata link.
pub open spec fn first_meta_upto(c: LazerColumns, nslots: int, sj: int, n: int) -> Option<int>
    decreases n,
{
    if n <= 0 {
        None
    } else {
        match first_meta_upto(c, nslots, sj, n - 1) {
            Some(m) => Some(m),
            None => {
                let i = n - 1;
                if i < c.bm_meta@.len() && 1 <= c.bm_set@[i] <= nslots && c.bm_set@[i] - 1 == sj && c.bm_meta@[i] >= 1 {
                    Some(idx_spec((c.bm_meta@[i] - 1) as u64))
                } else {
                    None
                }
            },
        }
    }
}

/// Metadata row of the first difficulty of set slot `sj`.
pub open spec fn first_meta(c: LazerColumns, sj: int) -> Option<int> {
    first_meta_upto(c, slots(c.set_online@.len() as int), sj, c.bm_set@.len() as int)
}

pub open spec fn opt_int(o: Option<usize>) -> Option<int> {
    match o {
        Some(v) => Some(v as int),
        None => None,
    }
}

fn first_meta_rows(c: &LazerColumns) -> (r: Vec<Option<usize>>)
    ensures
        r@.len() == slots(c.set_online@.len() as int),
        forall|sj: int| 0 <= sj < r@.len() ==> opt_int(#[trigger] r@[sj]) == first_meta(*c, sj),
{
    let n: usize = if c.set_online.len() == 0 { 1 } else { c.set_online.len() };
    let mut fm: Vec<Option<usize>> = Vec::new();
    while fm.len() < n
        invariant
            fm@.len() <= n,
            forall|sj: int| 0 <= sj < fm@.len() ==> (#[trigger] fm@[sj]) is None,
        decreases n - fm@.len(),
    {
        fm.push(None);
    }
    let mut i: usize = 0;
    while i < c.bm_set.len()
        invariant
            i <= c.bm_set.len(),
            fm@.len() == n,
            n == slots(c.set_online@.len() as int),
            forall|sj: int| 0 <= sj < n ==> opt_int(#[trigger] fm@[sj]) == first_meta_upto(*c, n as int, sj, i as int),
        decreases c.bm_set.len() - i,
    {
        let ghost old_fm = fm@;
        if i < c.bm_meta.len() {
            let l = c.bm_set[i];
            let ml = c.bm_meta[i];
            if l >= 1 && l <= n as u64 && ml >= 1 {
                let k = (l - 1) as usize;
                if fm[k].is_none() {
                    fm.set(k, Some(idx(ml - 1)));
                }
            }
        }
        assert forall|sj: int| 0 <= sj < n implies opt_int(#[trigger] fm@[sj]) == first_meta_upto(*c, n as int, sj, i + 1) by {
            assert(first_meta_upto(*c, n as int, sj, i + 1) == match first_meta_upto(*c, n as int, sj, i as int) {
                Some(m) => Some(m),
                None => if i < c.bm_meta@.len() && 1 <= c.bm_set@[i as int] <= n && c.bm_set@[i as int] - 1 == sj && c.bm_meta@[i as int] >= 1 {
                    Some(idx_spec((c.bm_meta@[i as int] - 1) as u64))
                } else {
                    None
                },
            });
            assert(opt_int(old_fm[sj]) == first_meta_upto(*c, n as int, sj, i as int));
        }
        i += 1;
    }
    fm
}

/// The `.osu` file at `path` declares no set id, or `id`.
pub open spec fn osu_declares<O: Fn(&String) -> i64>(osu_set_id: O, path: Seq<char>, id: i64) -> bool {
    exists|q: &String, e: i64| q@ == path && #[trigger] osu_set_id.ensures((q,), e) && (e <= 0 || e == id)
}

/// A file listed for a set: its content was seen to fit its name; it is a named file of the set
/// or the metadata's background file; a `.osu` file among the named ones declares no other set.
pub open spec fn index_file_ok<P, O>(f: (Seq<char>, Seq<char>), probe: P, osu_set_id: O, hashes: Seq<Seq<char>>, named: Seq<(Seq<char>, u64)>, want: Seq<char>, id: i64) -> bool where
    P: Fn(&str) -> Option<(Vec<u8>, String)>,
    O: Fn(&String) -> i64,
{
    &&& found_in_rows(probe, hashes, f.0, f.1)
    &&& (named_names(named).contains(f.0) || f.0 == want)
    &&& (ends_with(lowercase(f.0), ".osu"@) ==> osu_declares(osu_set_id, f.1, id) || f.0 == want)
}

pub open spec fn pair_views(v: Seq<(String, String)>) -> Seq<(Seq<char>, Seq<char>)> {
    v.map_values(|e: (String, String)| (e.0@, e.1@))
}

pub open spec fn only_view(only: Option<&[i64]>) -> Option<Seq<i64>> {
    match only {
        Some(o) => Some(o@),
        None => None,
    }
}

/// The first `js.len()` listed files are named files `js` (in the set's order), and every one of
/// the first `n` named files not listed was left out (`file_left_out`) or shares its name,
/// ignoring case, with a listed named file before it: of two such files the first found is kept.
pub open spec fn kept_named<P, O>(fs: Seq<(Seq<char>, Seq<char>)>, js: Seq<int>, named: Seq<(Seq<char>, u64)>, hashes: Seq<Seq<char>>, probe: P, osu_set_id: O, id: i64, n: int) -> bool where
    P: Fn(&str) -> Option<(Vec<u8>, String)>,
    O: Fn(&String) -> i64,
{
    &&& js.len() <= fs.len()
    &&& forall|a: int, b: int| 0 <= a < b < js.len() ==> js[a] < js[b]
    &&& forall|k: int| 0 <= k < js.len() ==> 0 <= #[trigger] js[k] < n && fs[k].0 == named[js[k]].0
    &&& forall|j: int| 0 <= j < n && !js.contains(j) ==> #[trigger] file_left_out(probe, osu_set_id, hashes, named[j], id)
        || exists|k: int| 0 <= k < js.len() && js[k] < j && lowercase(named[#[trigger] js[k]].0) == lowercase(named[j].0)
}

/// The background name the file index looks for in set slot `sj`: that of the first
/// difficulty's metadata, empty when the slot has none.
pub open spec fn slot_want(c: LazerColumns, sj: int) -> Seq<char> {
    match first_meta(c, sj) {
        Some(mi) => get_s(string_views(c.md_bg@), mi),
        None => Seq::empty(),
    }
}

/// The files after the first `n`: the background `rb` that the anchored search gave, when the
/// search was made (`sought`) and no file before has its name (case ignored); else none.
pub open spec fn recovered_tail(fs: Seq<(Seq<char>, Seq<char>)>, n: int, rb: Option<(String, String)>, sought: bool) -> bool {
    match rb {
        Some(b) => if sought && forall|k: int| 0 <= k < n ==> lowercase(#[trigger] fs[k].0) != lowercase(b.0@) {
            fs.len() == n + 1 && fs[n] == (b.0@, b.1@)
        } else {
            fs.len() == n
        },
        None => fs.len() == n,
    }
}

/// An entry of the file index for set slot `sj`: a set with an online id (one of `only` when
/// given), titled by its first difficulty's metadata, with at least one file, each file fitting
/// (`index_file_ok`) and no two names equal ignoring case. Its files are the named files kept
/// (`kept_named`), then the background that the anchored search gave (`recovered`), when it
/// was made and that name is new (`recovered_tail`).
pub open spec fn index_entry_ok<P, O>(e: LazerSetFileIndex, c: LazerColumns, sj: int, only: Option<Seq<i64>>, probe: P, osu_set_id: O) -> bool where
    P: Fn(&str) -> Option<(Vec<u8>, String)>,
    O: Fn(&String) -> i64,
{
    let fm = first_meta(c, sj);
    let want = slot_want(c, sj);
    let fs = pair_views(e.files@);
    &&& 0 <= sj < slots(c.set_online@.len() as int)
    &&& e.online_id == sign_extend_i32_spec(get_u(c.set_online@, sj))
    &&& e.online_id > 0
    &&& (only matches Some(o) ==> o.contains(e.online_id))
    &&& e.title@ == (match fm { Some(mi) => get_s(string_views(c.md_title@), mi), None => Seq::empty() })
    &&& e.artist@ == (match fm { Some(mi) => get_s(string_views(c.md_artist@), mi), None => Seq::empty() })
    &&& fs.len() > 0
    &&& (forall|k: int| 0 <= k < fs.len() ==> index_file_ok(#[trigger] fs[k], probe, osu_set_id, string_views(c.file_hashes@), set_named(c, sj), want, e.online_id))
    &&& (forall|a: int, b: int| 0 <= a < b < fs.len() ==> lowercase(#[trigger] fs[a].0) != lowercase(#[trigger] fs[b].0))
    &&& exists|js: Seq<int>, rb: Option<(String, String)>|
        #![trigger kept_named(fs, js, set_named(c, sj), string_views(c.file_hashes@), probe, osu_set_id, e.online_id, set_named(c, sj).len() as int), recovered_tail(fs, js.len() as int, rb, fm is Some)]
        kept_named(fs, js, set_named(c, sj), string_views(c.file_hashes@), probe, osu_set_id, e.online_id, set_named(c, sj).len() as int)
        && recovered(rb, probe, osu_set_id, string_views(c.file_hashes@), set_named(c, sj), want, e.online_id)
        && recovered_tail(fs, js.len() as int, rb, fm is Some)
}

/// No row of the lookup window of named file `f` gave content fitting its name.
pub open spec fn lookup_failed<P: Fn(&str) -> Option<(Vec<u8>, String)>>(probe: P, hashes: Seq<Seq<char>>, f: (Seq<char>, u64)) -> bool {
    forall|d: int| 0 <= d <= 12 ==> #[trigger] row_unfit(probe, hashes, f.1 as int, d, f.0)
}

/// The `.osu` file at `path` declares a set other than `id`.
pub open spec fn foreign_osu<O: Fn(&String) -> i64>(osu_set_id: O, path: Seq<char>, id: i64) -> bool {
    exists|q: &String, e: i64| q@ == path && #[trigger] osu_set_id.ensures((q,), e) && e > 0 && e != id
}

/// A named file of set `id` the index leaves out: its content was not found, or it is a `.osu`
/// file found declaring another set.
pub open spec fn file_left_out<P, O>(probe: P, osu_set_id: O, hashes: Seq<Seq<char>>, f: (Seq<char>, u64), id: i64) -> bool where
    P: Fn(&str) -> Option<(Vec<u8>, String)>,
    O: Fn(&String) -> i64,
{
    ||| lookup_failed(probe, hashes, f)
    ||| (ends_with(lowercase(f.0), ".osu"@)
        && exists|path: Seq<char>| #[trigger] found_in_rows(probe, hashes, f.0, path) && foreign_osu(osu_set_id, path, id))
}

/// A set slot the index may leave out: one without an online id, one outside `only`, or one each
/// of whose named files is left out (`file_left_out`) and for which the anchored search gave
/// nothing (`recovered`).
pub open spec fn slot_skippable<P, O>(c: LazerColumns, sj: int, only: Option<Seq<i64>>, probe: P, osu_set_id: O) -> bool where
    P: Fn(&str) -> Option<(Vec<u8>, String)>,
    O: Fn(&String) -> i64,
{
    let id = sign_extend_i32_spec(get_u(c.set_online@, sj));
    ||| id <= 0
    ||| (only matches Some(o) && !o.contains(id))
    ||| (forall|k: int| 0 <= k < set_named(c, sj).len()
        ==> #[trigger] file_left_out(probe, osu_set_id, string_views(c.file_hashes@), set_named(c, sj)[k], id))
        && recovered(None, probe, osu_set_id, string_views(c.file_hashes@), set_named(c, sj), slot_want(c, sj), id)
}

fn contains_i64(s: &[i64], x: i64) -> (b: bool)
    ensures
        b == s@.contains(x),
{
    let mut i: usize = 0;
    while i < s.len()
        invariant
            i <= s.len(),
            forall|j: int| 0 <= j < i ==> s@[j] != x,
        decreases s.len() - i,
    {
        if s[i] == x {
            return true;
        }
        i += 1;
    }
    false
}

fn ends_with_osu(lower: &String) -> (b: bool)
    ensures
        b == ends_with(lower@, ".osu"@),
{
    let v = chars_of(lower.as_str());
    let p = chars_of(".osu");
    assert(v@.subrange(0, v.len() as int) =~= v@);
    has_suffix(&v, 0, v.len(), &p)
}

} // verus!

verus! {

/// The file-index entry of set slot `sj` whose first metadata row is `fm`: none for a set
/// without an online id, one not in `only`, or one none of whose files resolve. The files are
/// its named files that resolve (a `.osu` declaring another set is left out; a name repeated
/// ignoring case keeps the first), then the background that the `.osu`-anchored search finds.
fn index_slot<P, O>(c: &LazerColumns, sj: usize, fm: Option<usize>, only: Option<&[i64]>, probe: &P, osu_set_id: &O) -> (r: Option<LazerSetFileIndex>) where
    P: Fn(&str) -> Option<(Vec<u8>, String)>,
    O: Fn(&String) -> i64,

    requires
        forall|s: &str| probe.requires((s,)),
        forall|p: &String| osu_set_id.requires((p,)),
        opt_int(fm) == first_meta(*c, sj as int),
        sj < slots(c.set_online@.len() as int),
    ensures
        r matches Some(e) ==> index_entry_ok(e, *c, sj as int, only_view(only), *probe, *osu_set_id),
        r is None ==> slot_skippable(*c, sj as int, only_view(only), *probe, *osu_set_id),
{
    let online_id = sign_extend_i32(get_u_exec(&c.set_online, sj));
    if online_id <= 0 {
        return None;
    }
    match only {
        Some(o) => {
            if !contains_i64(o, online_id) {
                return None;
            }
        },
        None => {},
    }
    let empty: Vec<u64> = Vec::new();
    let list: &Vec<u64> = if sj < c.set_files.len() { &c.set_files[sj] } else { &empty };
    let named = set_named_files(list.as_slice(), &c.nru_name, &c.nru_file);
    let ghost nv = named_views(named@);
    assert(nv == set_named(*c, sj as int));
    let d0: i64 = match first_audio_exec(&named) {
        Some(i) => calibrate_drift(&c.file_hashes, probe, named[i].1),
        None => 0,
    };
    let want: String = match fm {
        Some(mi) => get_s_exec(&c.md_bg, mi),
        None => String::new(),
    };
    let ghost hs = string_views(c.file_hashes@);
    let mut files: Vec<(String, String)> = Vec::new();
    let mut used: Vec<String> = Vec::new();
    let ghost mut js: Seq<int> = Seq::empty();
    let mut i: usize = 0;
    while i < named.len()
        invariant
            i <= named.len(),
            js.len() == files@.len(),
            kept_named(pair_views(files@), js, nv, hs, *probe, *osu_set_id, online_id, i as int),
            nv == named_views(named@),
            hs == string_views(c.file_hashes@),
            online_id > 0,
            forall|s: &str| probe.requires((s,)),
            forall|p: &String| osu_set_id.requires((p,)),
            string_views(used@) == pair_views(files@).map_values(|f: (Seq<char>, Seq<char>)| lowercase(f.0)),
            forall|k: int| 0 <= k < files@.len() ==> index_file_ok(#[trigger] pair_views(files@)[k], *probe, *osu_set_id, hs, nv, want@, online_id),
            forall|a: int, b: int| 0 <= a < b < files@.len() ==> lowercase(#[trigger] pair_views(files@)[a].0) != lowercase(#[trigger] pair_views(files@)[b].0),
            files@.len() == 0 ==> forall|k: int| 0 <= k < i ==> #[trigger] file_left_out(*probe, *osu_set_id, hs, nv[k], online_id),
        decreases named.len() - i,
    {
        let ghost fi = nv[i as int];
        let ghost fs0 = pair_views(files@);
        let ghost js0 = js;
        assert(fi == (named@[i as int].0@, named@[i as int].1));
        match resolve_at(&c.file_hashes, probe, named[i].1, named[i].0.as_str(), d0, 12) {
            None => {
                assert(lookup_failed(*probe, hs, fi));
                assert(file_left_out(*probe, *osu_set_id, hs, nv[i as int], online_id));
            },
            Some((row, p)) => {
                proof {
                    lemma_resolved_found(*probe, hs, row as int, named@[i as int].0@, p@);
                    assert(named_names(nv)[i as int] == named@[i as int].0@);
                }
                let lower = to_lower(named[i].0.as_str());
                let mut keep = true;
                if ends_with_osu(&lower) {
                    let e = osu_set_id(&p);
                    if e > 0 && e != online_id {
                        keep = false;
                        assert(foreign_osu(*osu_set_id, p@, online_id));
                        assert(found_in_rows(*probe, hs, fi.0, p@) && foreign_osu(*osu_set_id, p@, online_id));
                        assert(file_left_out(*probe, *osu_set_id, hs, nv[i as int], online_id));
                    } else {
                        assert(osu_set_id.ensures((&p,), e));
                        assert(osu_declares(*osu_set_id, p@, online_id));
                    }
                }
                let dup = contains_str(&used, &lower);
                if keep && dup {
                    proof {
                        let k = choose|k: int| 0 <= k < string_views(used@).len() && string_views(used@)[k] == lower@;
                        assert(string_views(used@)[k] == lowercase(fs0[k].0));
                        assert(js[k] < i && lowercase(nv[js[k]].0) == lowercase(nv[i as int].0));
                    }
                }
                if keep && !dup {
                    let ghost before = pair_views(files@);
                    let ghost ub = string_views(used@);
                    used.push(lower);
                    files.push((named[i].0.clone(), p));
                    proof {
                        js = js.push(i as int);
                        assert(pair_views(files@) =~= before.push((named@[i as int].0@, p@)));
                        assert(string_views(used@) =~= ub.push(lowercase(named@[i as int].0@)));
                        assert(string_views(used@) =~= pair_views(files@).map_values(|f: (Seq<char>, Seq<char>)| lowercase(f.0)));
                        assert forall|a: int, b: int| 0 <= a < b < files@.len() implies lowercase(#[trigger] pair_views(files@)[a].0) != lowercase(#[trigger] pair_views(files@)[b].0) by {
                            if b == files@.len() - 1 {
                                assert(ub[a] == lowercase(before[a].0));
                            }
                        }
                    }
                }
            },
        }
        proof {
            let fs1 = pair_views(files@);
            assert forall|k: int| 0 <= k < js.len() implies 0 <= #[trigger] js[k] < i + 1 && fs1[k].0 == nv[js[k]].0 by {
                if k < js0.len() {
                    assert(js[k] == js0[k] && fs1[k] == fs0[k]);
                }
            }
            assert forall|j: int| 0 <= j < i + 1 && !js.contains(j) implies #[trigger] file_left_out(*probe, *osu_set_id, hs, nv[j], online_id)
                || exists|k: int| 0 <= k < js.len() && js[k] < j && lowercase(nv[#[trigger] js[k]].0) == lowercase(nv[j].0) by {
                if j < i {
                    assert(!js0.contains(j)) by {
                        if js0.contains(j) {
                            let t = choose|t: int| 0 <= t < js0.len() && js0[t] == j;
                            assert(js[t] == j);
                        }
                    }
                    if !file_left_out(*probe, *osu_set_id, hs, nv[j], online_id) {
                        let k = choose|k: int| 0 <= k < js0.len() && js0[k] < j && lowercase(nv[#[trigger] js0[k]].0) == lowercase(nv[j].0);
                        assert(js[k] == js0[k]);
                    }
                } else if js.len() > js0.len() {
                    assert(js[js.len() - 1] == j);
                }
            }
        }
        i += 1;
    }
    let ghost jsf = js;
    let ghost fsl = pair_views(files@);
    let ghost ul = string_views(used@);
    let ghost mut rb: Option<(String, String)> = None;
    match fm {
        Some(_mi) => {
            let got = recover_bg_by_osu_anchor(&c.file_hashes, probe, osu_set_id, &named, d0, want.as_str(), online_id);
            proof {
                rb = got;
            }
            match got {
                Some((n, p)) => {
                    let lower = to_lower(n.as_str());
                    if contains_str(&used, &lower) {
                        proof {
                            let k = choose|k: int| 0 <= k < ul.len() && ul[k] == lower@;
                            assert(ul[k] == lowercase(fsl[k].0));
                        }
                    } else {
                        proof {
                            assert forall|k: int| 0 <= k < fsl.len() implies lowercase(#[trigger] fsl[k].0) != lowercase(n@) by {
                                assert(ul[k] == lowercase(fsl[k].0));
                            }
                        }
                        let ghost before = pair_views(files@);
                        let ghost ub = string_views(used@);
                        used.push(lower);
                        files.push((n, p));
                        proof {
                            assert(pair_views(files@) =~= before.push((n@, p@)));
                            assert forall|a: int, b: int| 0 <= a < b < files@.len() implies lowercase(#[trigger] pair_views(files@)[a].0) != lowercase(#[trigger] pair_views(files@)[b].0) by {
                                if b == files@.len() - 1 {
                                    assert(ub[a] == lowercase(before[a].0));
                                }
                            }
                        }
                    }
                },
                None => {},
            }
        },
        None => {},
    }
    proof {
        let fs2 = pair_views(files@);
        assert(fsl.len() <= fs2.len() <= fsl.len() + 1);
        assert forall|k: int| 0 <= k < fsl.len() implies fs2[k] == fsl[k] by {}
        assert(kept_named(fs2, jsf, nv, hs, *probe, *osu_set_id, online_id, nv.len() as int)) by {
            assert forall|k: int| 0 <= k < jsf.len() implies 0 <= #[trigger] jsf[k] < nv.len() && fs2[k].0 == nv[jsf[k]].0 by {
                assert(fs2[k] == fsl[k]);
            }
        }
        assert(want@ == slot_want(*c, sj as int));
        assert(recovered(rb, *probe, *osu_set_id, hs, nv, want@, online_id));
        assert(recovered_tail(fs2, jsf.len() as int, rb, fm is Some));
    }
    if files.len() == 0 {
        proof {
            assert(rb is None);
            assert(recovered(None, *probe, *osu_set_id, hs, nv, slot_want(*c, sj as int), online_id));
        }
        return None;
    }
    let title = match fm {
        Some(mi) => get_s_exec(&c.md_title, mi),
        None => String::new(),
    };
    let artist = match fm {
        Some(mi) => get_s_exec(&c.md_artist, mi),
        None => String::new(),
    };
    let ghost files_v = files@;
    let res = LazerSetFileIndex { online_id, title, artist, files };
    assert(res.files@ == files_v);
    assert(kept_named(pair_views(res.files@), jsf, set_named(*c, sj as int), string_views(c.file_hashes@), *probe, *osu_set_id, res.online_id, set_named(*c, sj as int).len() as int));
    assert(recovered_tail(pair_views(res.files@), jsf.len() as int, rb, fm is Some));
    assert(index_entry_ok(res, *c, sj as int, only_view(only), *probe, *osu_set_id));
    Some(res)
}

} // verus!

verus! {

/// The file index from some columns: entries for set slots in increasing order, each fitting
/// (`index_entry_ok`); every set slot left out is one that may be (`slot_skippable`).
pub open spec fn index_ok<P, O>(r: Seq<LazerSetFileIndex>, c: LazerColumns, only: Option<Seq<i64>>, probe: P, osu_set_id: O) -> bool where
    P: Fn(&str) -> Option<(Vec<u8>, String)>,
    O: Fn(&String) -> i64,
{
    exists|js: Seq<int>| #[trigger] js.len() == r.len()
        && (forall|a: int, b: int| 0 <= a < b < js.len() ==> js[a] < js[b])
        && (forall|k: int| 0 <= k < r.len() ==> index_entry_ok(#[trigger] r[k], c, js[k], only, probe, osu_set_id))
        && (forall|j: int| 0 <= j < slots(c.set_online@.len() as int) && !js.contains(j)
            ==> #[trigger] slot_skippable(c, j, only, probe, osu_set_id))
}

/// Indexes the files of each set slot (`index_slot`), keeping the slots that give an entry.
pub fn index_columns<P, O>(c: &LazerColumns, only: Option<&[i64]>, probe: &P, osu_set_id: &O) -> (r: Vec<LazerSetFileIndex>) where
    P: Fn(&str) -> Option<(Vec<u8>, String)>,
    O: Fn(&String) -> i64,

    requires
        forall|s: &str| probe.requires((s,)),
        forall|p: &String| osu_set_id.requires((p,)),
    ensures
        index_ok(r@, *c, only_view(only), *probe, *osu_set_id),
{
    let fm = first_meta_rows(c);
    let mut out: Vec<LazerSetFileIndex> = Vec::new();
    let ghost mut js: Seq<int> = Seq::empty();
    let mut sj: usize = 0;
    while sj < fm.len()
        invariant
            sj <= fm@.len(),
            fm@.len() == slots(c.set_online@.len() as int),
            forall|j: int| 0 <= j < fm@.len() ==> opt_int(#[trigger] fm@[j]) == first_meta(*c, j),
            forall|s: &str| probe.requires((s,)),
            forall|p: &String| osu_set_id.requires((p,)),
            js.len() == out@.len(),
            forall|a: int| 0 <= a < js.len() ==> #[trigger] js[a] < sj,
            forall|a: int, b: int| 0 <= a < b < js.len() ==> js[a] < js[b],
            forall|k: int| 0 <= k < out@.len() ==> index_entry_ok(#[trigger] out@[k], *c, js[k], only_view(only), *probe, *osu_set_id),
            forall|j: int| 0 <= j < sj && !js.contains(j) ==> #[trigger] slot_skippable(*c, j, only_view(only), *probe, *osu_set_id),
        decreases fm@.len() - sj,
    {
        assert(opt_int(fm@[sj as int]) == first_meta(*c, sj as int));
        match index_slot(c, sj, fm[sj], only, probe, osu_set_id) {
            Some(e) => {
                let ghost before = out@;
                out.push(e);
                proof {
                    let ghost old_js = js;
                    js = js.push(sj as int);
                    assert forall|j: int| 0 <= j < sj + 1 && !js.contains(j) implies #[trigger] slot_skippable(*c, j, only_view(only), *probe, *osu_set_id) by {
                        if j == sj {
                            assert(js[js.len() - 1] == j);
                        } else if old_js.contains(j) {
                            let t = choose|t: int| 0 <= t < old_js.len() && old_js[t] == j;
                            assert(js[t] == j);
                        }
                    }
                    assert forall|k: int| 0 <= k < out@.len() implies index_entry_ok(#[trigger] out@[k], *c, js[k], only_view(only), *probe, *osu_set_id) by {
                        if k < before.len() {
                            assert(out@[k] == before[k]);
                        }
                    }
                }
            },
            None => {},
        }
        sj += 1;
    }
    assert(js.len() == out@.len());
    out
}

/// The file index is that of some columns read from `data`.
pub open spec fn indexed<P, O>(data: Seq<u8>, v: Seq<LazerSetFileIndex>, only: Option<Seq<i64>>, probe: P, osu_set_id: O) -> bool where
    P: Fn(&str) -> Option<(Vec<u8>, String)>,
    O: Fn(&String) -> i64,
{
    exists|c: LazerColumns| columns_of(c, data) && #[trigger] index_ok(v, c, only, probe, osu_set_id)
}

/// Each set's complete file list from a lazer database image, for conversion (`index_columns`;
/// `only` limits it to those online ids). The BeatmapSet and then the Beatmap table must exist.
pub fn collect_set_files<P, O>(data: &[u8], only: Option<&[i64]>, probe: &P, osu_set_id: &O) -> (r: Result<Vec<LazerSetFileIndex>, String>) where
    P: Fn(&str) -> Option<(Vec<u8>, String)>,
    O: Fn(&String) -> i64,

    requires
        forall|s: &str| probe.requires((s,)),
        forall|p: &String| osu_set_id.requires((p,)),
    ensures
        locate_spec(data@, "class_BeatmapSet"@) is None ==> (r matches Err(e) && e@ == missing_table("class_BeatmapSet"@)),
        locate_spec(data@, "class_BeatmapSet"@) is Some && locate_spec(data@, "class_Beatmap"@) is None
            ==> (r matches Err(e) && e@ == missing_table("class_Beatmap"@)),
        locate_spec(data@, "class_BeatmapSet"@) is Some && locate_spec(data@, "class_Beatmap"@) is Some
            ==> (r matches Ok(v) && indexed(data@, v@, only_view(only), *probe, *osu_set_id)),
{
    if locate_table(data, "class_BeatmapSet").is_none() {
        return Err(crate::errcode::ec1(crate::errcode::REALM_MISSING_TABLE, "class_BeatmapSet"));
    }
    let c = match read_columns(data) {
        Ok(c) => c,
        Err(e) => return Err(e),
    };
    Ok(index_columns(&c, only, probe, osu_set_id))
}

} // verus!

verus! {

/// A set's named files have non-empty names, no two equal ignoring case, each with a file
/// link of at least 1.
pub proof fn named_files_distinct(list: Seq<u64>, names: Seq<Seq<char>>, files: Seq<u64>)
    ensures
        forall|i: int, j: int| 0 <= i < j < named_spec(list, names, files).len()
            ==> lowercase(#[trigger] named_spec(list, names, files)[i].0) != lowercase(#[trigger] named_spec(list, names, files)[j].0),
        forall|i: int| 0 <= i < named_spec(list, names, files).len()
            ==> (#[trigger] named_spec(list, names, files)[i]).0.len() > 0 && named_spec(list, names, files)[i].1 >= 1,
    decreases list.len(),
{
    if list.len() > 0 {
        named_files_distinct(list.drop_last(), names, files);
        let prev = named_spec(list.drop_last(), names, files);
        let r = named_spec(list, names, files);
        if r.len() > prev.len() {
            assert(r == prev.push(r.last()));
            assert forall|i: int, j: int| 0 <= i < j < r.len() implies lowercase(#[trigger] r[i].0) != lowercase(#[trigger] r[j].0) by {
                if j == r.len() - 1 {
                    assert(lower_names(prev)[i] == lowercase(prev[i].0));
                    assert(r[i] == prev[i]);
                } else {
                    assert(r[i] == prev[i] && r[j] == prev[j]);
                }
            }
            assert forall|i: int| 0 <= i < r.len() implies (#[trigger] r[i]).0.len() > 0 && r[i].1 >= 1 by {
                if i < prev.len() {
                    assert(r[i] == prev[i]);
                }
            }
        }
    }
}

} // verus!
