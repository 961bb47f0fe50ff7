//! Steam's own identifiers for the shortcuts gamestore adds.
//!
//! A non-Steam shortcut has no appid from Valve's side, so Steam derives one from
//! the shortcut itself: a CRC-32 over the stored executable followed by the display
//! name, with the high bit set. The Proton prefix (`compatdata/<appid>`) and the tile
//! artwork are named after that number.

use vstd::prelude::*;
use vstd::utf8::*;

use crate::text::{decimal, decimal_string, push_char};

verus! {

/// The reflected IEEE 802.3 polynomial, as `zlib.crc32` uses it.
pub const CRC32_POLYNOMIAL: u32 = 0xEDB8_8320;

/// One bit of the reflected CRC-32 shift register.
pub open spec fn crc_bit_step(c: u32) -> u32 {
    if c & 1 != 0 {
        (c >> 1) ^ 0xEDB8_8320u32
    } else {
        c >> 1
    }
}

/// Eight register steps: what one byte, already XORed into the register, does to it.
pub open spec fn crc_byte_steps(c: u32) -> u32 {
    crc_bit_step(
        crc_bit_step(
            crc_bit_step(
                crc_bit_step(crc_bit_step(crc_bit_step(crc_bit_step(crc_bit_step(c))))),
            ),
        ),
    )
}

/// The register after absorbing one byte.
pub open spec fn crc_absorb(crc: u32, byte: u8) -> u32 {
    crc_byte_steps(crc ^ (byte as u32))
}

/// The register after absorbing `bytes` in order, starting from `crc`.
pub open spec fn crc_register(crc: u32, bytes: Seq<u8>) -> u32
    decreases bytes.len(),
{
    if bytes.len() == 0 {
        crc
    } else {
        crc_absorb(crc_register(crc, bytes.drop_last()), bytes.last())
    }
}

/// CRC-32 (IEEE 802.3, reflected, initial value and final XOR all ones) of `bytes`.
pub open spec fn spec_crc32(bytes: Seq<u8>) -> u32 {
    crc_register(0xFFFF_FFFFu32, bytes) ^ 0xFFFF_FFFFu32
}

/// The table entry for index `i`: eight register steps over the index alone.
pub open spec fn crc_table_entry(i: u32) -> u32 {
    crc_byte_steps(i)
}

/// The table-driven step computes the same register as the bitwise one.
proof fn lemma_table_step(crc: u32, byte: u8)
    ensures
        crc_absorb(crc, byte) == crc_table_entry((crc ^ (byte as u32)) & 0xFF) ^ (crc >> 8),
{
    let b = byte as u32;
    assert(b < 256);
    assert(crc_byte_steps(crc ^ b) == crc_byte_steps((crc ^ b) & 0xFF) ^ (crc >> 8)) by (bit_vector)
        requires
            b < 256,
    ;
}

/// The 256-entry lookup table of the reflected CRC-32.
fn crc32_table() -> (table: Vec<u32>)
    ensures
        table.len() == 256,
        forall|i: int| 0 <= i < 256 ==> table@[i] == crc_table_entry(i as u32),
{
    let mut table: Vec<u32> = Vec::with_capacity(256);
    let mut index: u32 = 0;
    while index < 256
        invariant
            index <= 256,
            table.len() == index,
            forall|i: int| 0 <= i < index ==> table@[i] == crc_table_entry(i as u32),
        decreases 256 - index,
    {
        let mut crc: u32 = index;
        let mut bit: u32 = 0;
        while bit < 8
            invariant
                bit <= 8,
                index < 256,
                crc == crc_steps(index, bit as nat),
            decreases 8 - bit,
        {
            crc = if crc & 1 != 0 {
                (crc >> 1) ^ CRC32_POLYNOMIAL
            } else {
                crc >> 1
            };
            bit = bit + 1;
        }
        proof {
            lemma_crc_steps_eight(index);
        }
        table.push(crc);
        index = index + 1;
    }
    table
}

/// `n` register steps from `c`.
spec fn crc_steps(c: u32, n: nat) -> u32
    decreases n,
{
    if n == 0 {
        c
    } else {
        crc_bit_step(crc_steps(c, (n - 1) as nat))
    }
}

proof fn lemma_crc_steps_eight(c: u32)
    ensures
        crc_steps(c, 8) == crc_byte_steps(c),
{
    reveal_with_fuel(crc_steps, 9);
}

/// CRC-32 of `bytes`.
pub fn crc32(bytes: &[u8]) -> (crc: u32)
    ensures
        crc == spec_crc32(bytes@),
{
    let table = crc32_table();
    let mut crc: u32 = 0xFFFF_FFFF;
    let mut i: usize = 0;
    while i < bytes.len()
        invariant
            i <= bytes.len(),
            table.len() == 256,
            forall|k: int| 0 <= k < 256 ==> table@[k] == crc_table_entry(k as u32),
            crc == crc_register(0xFFFF_FFFFu32, bytes@.subrange(0, i as int)),
        decreases bytes.len() - i,
    {
        let byte = bytes[i];
        proof {
            lemma_table_step(crc, byte);
            assert(bytes@.subrange(0, i + 1).drop_last() == bytes@.subrange(0, i as int));
        }
        let masked: u32 = (crc ^ byte as u32) & 0xFF;
        assert(masked < 256) by (bit_vector)
            requires
                masked == (crc ^ byte as u32) & 0xFF,
        ;
        let index = masked as usize;
        crc = table[index] ^ (crc >> 8);
        i = i + 1;
    }
    proof {
        assert(bytes@.subrange(0, bytes@.len() as int) == bytes@);
    }
    crc ^ 0xFFFF_FFFF
}


/// The high bit that marks a 32-bit id as a shortcut rather than a real appid.
pub const SHORTCUT_MARKER: u32 = 0x8000_0000;

/// The low half of the 64-bit shortcut id.
pub const SHORTCUT_ID_LOW: u64 = 0x0200_0000;

/// The appid Steam derives for a shortcut whose stored `Exe` field is `exe` and
/// whose display name is `app_name`: the CRC-32 of their UTF-8 bytes, exe first,
/// with the high bit set.
pub open spec fn spec_shortcut_appid(exe: Seq<char>, app_name: Seq<char>) -> u32 {
    spec_crc32(encode_utf8(exe) + encode_utf8(app_name)) | 0x8000_0000u32
}

/// The 64-bit form of a 32-bit shortcut appid.
pub open spec fn spec_appid_to_shortcut_id(appid: u32) -> u64 {
    ((appid as u64) << 32u64) | 0x0200_0000u64
}

/// The executable as Steam stores it in `shortcuts.vdf`: between double quotes.
pub open spec fn spec_quote_exe(exe: Seq<char>) -> Seq<char> {
    seq!['"'] + exe + seq!['"']
}

/// The 32-bit appid Steam uses for a non-Steam shortcut.
///
/// `exe` must be the exact string stored in the shortcut's `Exe` field, quotes
/// included: the CRC is over what is stored; see [`quote_exe`].
pub fn shortcut_appid(exe: &str, app_name: &str) -> (appid: u32)
    ensures
        appid == spec_shortcut_appid(exe@, app_name@),
        appid & 0x8000_0000 != 0,
{
    let exe_bytes = exe.as_bytes();
    let name_bytes = app_name.as_bytes();
    let mut input: Vec<u8> = Vec::new();
    input.extend_from_slice(exe_bytes);
    input.extend_from_slice(name_bytes);
    assert(input@ =~= encode_utf8(exe@) + encode_utf8(app_name@));
    let crc = crc32(input.as_slice());
    let appid = crc | SHORTCUT_MARKER;
    assert(appid & 0x8000_0000 != 0) by (bit_vector)
        requires
            appid == crc | 0x8000_0000u32,
    ;
    appid
}

/// The 64-bit form of the same identifier, as `steam://rungameid/` links use it.
pub fn shortcut_id(exe: &str, app_name: &str) -> (id: u64)
    ensures
        id == spec_appid_to_shortcut_id(spec_shortcut_appid(exe@, app_name@)),
{
    appid_to_shortcut_id(shortcut_appid(exe, app_name))
}

/// Widen a 32-bit shortcut appid into its 64-bit form.
pub fn appid_to_shortcut_id(appid: u32) -> (id: u64)
    ensures
        id == spec_appid_to_shortcut_id(appid),
        id >> 32u64 == appid as u64,
        id & 0xFFFF_FFFFu64 == 0x0200_0000u64,
{
    let id = ((appid as u64) << 32u64) | SHORTCUT_ID_LOW;
    assert(id >> 32u64 == appid as u64 && id & 0xFFFF_FFFFu64 == 0x0200_0000u64) by (bit_vector)
        requires
            id == ((appid as u64) << 32u64) | 0x0200_0000u64,
    ;
    id
}

/// Narrow a 64-bit shortcut id back to the appid the prefix and artwork use.
pub fn shortcut_id_to_appid(shortcut_id: u64) -> (appid: u32)
    ensures
        appid as u64 == shortcut_id >> 32u64,
{
    let high = shortcut_id >> 32u64;
    assert(high <= 0xFFFF_FFFFu64) by (bit_vector)
        requires
            high == shortcut_id >> 32u64,
    ;
    high as u32
}

/// Narrowing undoes widening: the 64-bit id carries the appid in its high half.
pub proof fn lemma_shortcut_id_round_trip(appid: u32)
    ensures
        spec_appid_to_shortcut_id(appid) >> 32u64 == appid as u64,
        spec_appid_to_shortcut_id(appid) & 0xFFFF_FFFFu64 == 0x0200_0000u64,
{
    assert(((((appid as u64) << 32u64) | 0x0200_0000u64) >> 32u64) == appid as u64) by (bit_vector);
    assert(((((appid as u64) << 32u64) | 0x0200_0000u64) & 0xFFFF_FFFFu64) == 0x0200_0000u64)
        by (bit_vector);
}

/// The executable as Steam stores it in `shortcuts.vdf`: quoted.
///
/// Whatever this returns is what must be fed to [`shortcut_appid`] and written into
/// the shortcut, or the prefix prepared is not the prefix Steam launches into.
pub fn quote_exe(exe: &str) -> (quoted: String)
    ensures
        quoted@ == spec_quote_exe(exe@),
{
    let mut quoted = String::new();
    push_char(&mut quoted, '"');
    quoted.append(exe);
    push_char(&mut quoted, '"');
    proof {
        assert(quoted@ =~= spec_quote_exe(exe@));
    }
    quoted
}

/// The `compatdata` directory name for a shortcut's Proton prefix: the appid in
/// decimal, as an unsigned number.
pub fn compatdata_name(appid: u32) -> (name: String)
    ensures
        name@ == decimal(appid as nat),
{
    decimal_string(appid as u64)
}

/// Law: the stored executable is the executable between one pair of double
/// quotes, added before and after it.
pub proof fn lemma_quoted_exe(exe: Seq<char>)
    ensures
        spec_quote_exe(exe).len() == exe.len() + 2,
        spec_quote_exe(exe)[0] == '"',
        spec_quote_exe(exe)[exe.len() as int + 1] == '"',
        spec_quote_exe(exe).subrange(1, exe.len() as int + 1) == exe,
{
    assert(spec_quote_exe(exe).subrange(1, exe.len() as int + 1) =~= exe);
}

/// Law: a shortcut's appid always has its high bit set, which keeps it clear of
/// the appids Valve hands out; the other bits are the CRC-32 of the stored
/// executable's bytes followed by the name's.
pub proof fn lemma_shortcut_appid_high_bit(exe: Seq<char>, app_name: Seq<char>)
    ensures
        spec_shortcut_appid(exe, app_name) & 0x8000_0000u32 == 0x8000_0000u32,
        spec_shortcut_appid(exe, app_name) & 0x7FFF_FFFFu32 == spec_crc32(encode_utf8(exe) + encode_utf8(app_name))
            & 0x7FFF_FFFFu32,
{
    let crc = spec_crc32(encode_utf8(exe) + encode_utf8(app_name));
    assert((crc | 0x8000_0000u32) & 0x8000_0000u32 == 0x8000_0000u32) by (bit_vector);
    assert((crc | 0x8000_0000u32) & 0x7FFF_FFFFu32 == crc & 0x7FFF_FFFFu32) by (bit_vector);
}

} // verus!
