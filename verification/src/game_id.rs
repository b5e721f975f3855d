//! The code players type to join a private game: the server id and the game
//! id packed into one number, written in base 36.

use vstd::prelude::*;

verus! {

/// The packed number: the game id above the low eight bits, the server id in
/// them.
pub open spec fn packed_game_id(server_id: u8, game_id: u32) -> int {
    game_id as int * 256 + server_id as int
}

/// The server id and game id read back from a packed number: the low eight
/// bits, and the next thirty-two.
pub open spec fn unpacked_game_id(v: u64) -> (u8, u32) {
    ((v % 256) as u8, ((v / 256) % 0x1_0000_0000) as u32)
}

/// What `lexical` reads from `src` as an unsigned 64-bit number in base 36,
/// or `None` where it reports an error.
pub uninterp spec fn radix36_parse(src: Seq<char>) -> Option<u64>;

/// The base-36 digit for `d` (below 36): `0` to `9`, then `A` to `Z`.
pub open spec fn base36_digit(d: int) -> char {
    if d < 10 {
        (48 + d) as char
    } else {
        (55 + d) as char
    }
}

/// `v` written in base 36, most significant digit first, with no leading
/// zeros (`0` for zero).
pub open spec fn base36_text(v: nat) -> Seq<char>
    decreases v,
{
    if v < 36 {
        seq![base36_digit(v as int)]
    } else {
        base36_text(v / 36).push(base36_digit((v % 36) as int))
    }
}

/// The number format of `lexical` for plain base-36 integers (what
/// `lexical::NumberFormatBuilder::from_radix(36)` builds).
const GAME_ID_FORMAT: u128 = 0x2424_2400_0000_0000_0000_0000_0000_000c;

/// Calls `lexical::parse_with_options` for a `u64` in base 36 with the default
/// integer options. Claimed: the result is a function of the text alone, named
/// `radix36_parse`; an error becomes `None`. Not claimed: which texts parse,
/// or to what.
#[verifier::external_body]
fn parse_radix36(src: &str) -> (res: Option<u64>)
    ensures
        res == radix36_parse(src@),
{
    match lexical::parse_with_options::<u64, _, GAME_ID_FORMAT>(
        src,
        &lexical::ParseIntegerOptions::new(),
    ) {
        Ok(v) => Some(v),
        Err(_) => None,
    }
}

/// Calls `lexical::to_string_with_options` for a `u64` in base 36 with the
/// default integer options. Claimed: the text is the number's base-36
/// digits, most significant first, upper-case letters, no leading zeros;
/// and `lexical` reads that text back as the number.
#[verifier::external_body]
fn write_radix36(v: u64) -> (res: String)
    ensures
        res@ == base36_text(v as nat),
        radix36_parse(res@) == Some(v),
{
    lexical::to_string_with_options::<u64, GAME_ID_FORMAT>(v, &lexical::WriteIntegerOptions::new())
}

/// The error of `parse_full_game_id_str`: the text is not a base-36 number
/// that fits in 64 bits.
#[derive(Clone, Copy, Debug, PartialEq, Eq)]
pub struct InvalidGameCode;

/// Packs a server id and a game id into one number.
pub fn pack_game_id(server_id: u8, game_id: u32) -> (res: u64)
    ensures
        res == packed_game_id(server_id, game_id),
{
    let g = game_id as u64;
    assert(g << 8u64 == g * 256 && g * 256 <= 0xffff_ffff_00) by (bit_vector)
        requires g <= 0xffff_ffff;
    (g << 8u64) + (server_id as u64)
}

/// Splits a packed number into the server id and the game id.
pub fn unpack_game_id(v: u64) -> (res: (u8, u32))
    ensures
        res == unpacked_game_id(v),
{
    let server_id = (v & 0xffu64) as u8;
    let game_id = (v >> 8u64) as u32;
    assert(v & 0xffu64 == v % 256) by (bit_vector);
    assert((v >> 8u64) as u32 == ((v / 256) % 0x1_0000_0000) as u32) by (bit_vector);
    (server_id, game_id)
}

/// Reads a game code: a base-36 number, unpacked into server id and game id.
pub fn parse_full_game_id_str(src: &str) -> (res: Result<(u8, u32), InvalidGameCode>)
    ensures
        match radix36_parse(src@) {
            Some(v) => res == Ok::<(u8, u32), InvalidGameCode>(unpacked_game_id(v)),
            None => res is Err,
        },
{
    match parse_radix36(src) {
        Some(v) => Ok(unpack_game_id(v)),
        None => Err(InvalidGameCode),
    }
}

/// Writes the game code for a server id and a game id; reading the code
/// back gives the same two ids.
pub fn to_full_game_id_str(server_id: u8, game_id: u32) -> (res: String)
    ensures
        res@ == base36_text(packed_game_id(server_id, game_id) as nat),
        match radix36_parse(res@) {
            Some(v) => unpacked_game_id(v) == (server_id, game_id),
            None => false,
        },
{
    proof {
        lemma_unpack_pack(server_id, game_id);
    }
    write_radix36(pack_game_id(server_id, game_id))
}

/// Unpacking a packed number gives back the server id and the game id.
pub proof fn lemma_unpack_pack(server_id: u8, game_id: u32)
    ensures
        0 <= packed_game_id(server_id, game_id) <= u64::MAX,
        unpacked_game_id(packed_game_id(server_id, game_id) as u64) == (server_id, game_id),
{
    let v = packed_game_id(server_id, game_id);
    assert(v / 256 == game_id as int && v % 256 == server_id as int) by (nonlinear_arith)
        requires v == game_id as int * 256 + server_id as int, 0 <= server_id < 256, 0 <= game_id;
}

} // verus!
