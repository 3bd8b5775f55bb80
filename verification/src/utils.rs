//! Little-endian numbers in byte strings, and hardware addresses as numbers.

use vstd::prelude::*;
use pnet::datalink::MacAddr;
use crate::packet::PacketView;
use crate::pv::PvPacket;

verus! {

/// A hardware address of six octets, as `pnet` holds it.
#[verifier::external_type_specification]
#[verifier::external_body]
pub struct ExMacAddr(MacAddr);

/// The six octets of a hardware address, in transmission order.
pub uninterp spec fn mac_octets(mac: MacAddr) -> Seq<u8>;

/// `MacAddr::octets`: the six octets that make up the address, first octet
/// first.
#[verifier::external_body]
pub(crate) fn octets_of(mac: &MacAddr) -> (octets: [u8; 6])
    ensures
        octets@ == mac_octets(*mac),
{
    mac.octets()
}

/// The number that a byte string spells with its least significant byte
/// first.
pub open spec fn le_value(bytes: Seq<u8>) -> nat
    decreases bytes.len(),
{
    if bytes.len() == 0 {
        0
    } else {
        bytes[0] as nat + 256 * le_value(bytes.drop_first())
    }
}

/// 256 to the power of `n`.
pub open spec fn pow256(n: nat) -> nat
    decreases n,
{
    if n == 0 {
        1
    } else {
        256 * pow256((n - 1) as nat)
    }
}

/// A byte string of `n` bytes spells a number below 256 to the `n`.
pub proof fn lemma_le_value_bound(bytes: Seq<u8>)
    ensures
        le_value(bytes) < pow256(bytes.len()),
    decreases bytes.len(),
{
    if bytes.len() > 0 {
        lemma_le_value_bound(bytes.drop_first());
        let rest = le_value(bytes.drop_first());
        let top = pow256((bytes.len() - 1) as nat);
        assert(bytes[0] as nat + 256 * rest < 256 * top) by (nonlinear_arith)
            requires
                bytes[0] as nat <= 255,
                rest < top,
        ;
    }
}

/// Eight bytes spell a number that fits in 64 bits.
pub proof fn lemma_pow256_values()
    ensures
        pow256(0) == 1,
        pow256(1) == 0x100,
        pow256(2) == 0x1_0000,
        pow256(3) == 0x100_0000,
        pow256(4) == 0x1_0000_0000,
        pow256(5) == 0x100_0000_0000,
        pow256(6) == 0x1_0000_0000_0000,
        pow256(7) == 0x100_0000_0000_0000,
        pow256(8) == 0x1_0000_0000_0000_0000,
{
    reveal_with_fuel(pow256, 10);
}

/// `pow256` grows with its argument.
pub proof fn lemma_pow256_monotonic(m: nat, n: nat)
    requires
        m <= n,
    ensures
        pow256(m) <= pow256(n),
        pow256(m) > 0,
    decreases n,
{
    if m < n {
        lemma_pow256_monotonic(m, (n - 1) as nat);
    } else if n > 0 {
        lemma_pow256_monotonic((m - 1) as nat, (n - 1) as nat);
    }
}

/// Reads the first `size` bytes of `bytes` as a number, least significant
/// byte first.
pub fn endian(bytes: &[u8], size: u32) -> (value: u64)
    requires
        size <= 8,
        size <= bytes@.len(),
    ensures
        value == le_value(bytes@.take(size as int)),
{
    let ghost window = bytes@.take(size as int);
    let mut value: u64 = 0;
    let mut n: u32 = size;
    while n > 0
        invariant
            n <= size,
            size <= 8,
            size <= bytes@.len(),
            window == bytes@.take(size as int),
            value == le_value(window.skip(n as int)),
        decreases n,
    {
        n = n - 1;
        proof {
            let tail = window.skip(n as int);
            assert(tail.drop_first() =~= window.skip(n + 1));
            assert(tail[0] == bytes@[n as int]);
            lemma_le_value_bound(tail.drop_first());
            lemma_pow256_monotonic(tail.drop_first().len(), 7);
            lemma_pow256_values();
        }
        value = value * 256 + bytes[n as usize] as u64;
    }
    proof {
        assert(window.skip(0) =~= window);
    }
    value
}

/// Reads two bytes as a number, least significant byte first.
pub fn endian16(bytes: &[u8]) -> (value: u16)
    requires
        bytes@.len() >= 2,
    ensures
        value == le_value(bytes@.take(2)),
{
    proof {
        lemma_le_value_bound(bytes@.take(2));
        lemma_pow256_values();
    }
    endian(bytes, 2) as u16
}

/// Reads four bytes as a number, least significant byte first.
pub fn endian32(bytes: &[u8]) -> (value: u32)
    requires
        bytes@.len() >= 4,
    ensures
        value == le_value(bytes@.take(4)),
{
    proof {
        lemma_le_value_bound(bytes@.take(4));
        lemma_pow256_values();
    }
    endian(bytes, 4) as u32
}

/// Reads six bytes as a number, least significant byte first.
pub fn endian48(bytes: &[u8]) -> (value: u64)
    requires
        bytes@.len() >= 6,
    ensures
        value == le_value(bytes@.take(6)),
{
    endian(bytes, 6)
}

/// Reads eight bytes as a number, least significant byte first.
pub fn endian64(bytes: &[u8]) -> (value: u64)
    requires
        bytes@.len() >= 8,
    ensures
        value == le_value(bytes@.take(8)),
{
    endian(bytes, 8)
}

/// The hardware address as a number whose least significant byte is the
/// address's first octet.
#[allow(non_snake_case)]
pub fn macAddr_to_u64(mac: &MacAddr) -> (value: u64)
    ensures
        value == le_value(mac_octets(*mac)),
{
    let octets: [u8; 6] = octets_of(mac);
    proof {
        assert(octets@.take(6) =~= octets@);
    }
    endian(octets.as_slice(), 6)
}

/// The `len` lowest bytes of a number, least significant byte first.
pub open spec fn le_bytes(value: nat, len: nat) -> Seq<u8>
    decreases len,
{
    if len == 0 {
        Seq::empty()
    } else {
        le_bytes(value, (len - 1) as nat).push(
            ((value / pow256((len - 1) as nat)) % 256) as u8,
        )
    }
}

/// Writes the `len` lowest bytes of `value` over the first `len` bytes of
/// `bytes`, least significant byte first.
pub fn set_bits(bytes: &mut [u8], value: u64, len: u32)
    requires
        len <= 8,
        len <= old(bytes)@.len(),
    ensures
        final(bytes)@ == le_bytes(value as nat, len as nat) + old(bytes)@.skip(len as int),
        final(bytes)@.len() == old(bytes)@.len(),
{
    let mut rest: u64 = value;
    let mut n: u32 = 0;
    proof {
        lemma_pow256_values();
    }
    while n < len
        invariant
            n <= len,
            len <= 8,
            len <= old(bytes)@.len(),
            bytes@.len() == old(bytes)@.len(),
            rest == value as nat / pow256(n as nat),
            bytes@ =~= le_bytes(value as nat, n as nat) + old(bytes)@.skip(n as int),
        decreases len - n,
    {
        proof {
            lemma_pow256_monotonic(n as nat, 8);
            vstd::arithmetic::div_mod::lemma_div_denominator(
                value as int,
                pow256(n as nat) as int,
                256,
            );
            assert(pow256((n + 1) as nat) == 256 * pow256(n as nat));
            assert(pow256(n as nat) * 256 == 256 * pow256(n as nat)) by (nonlinear_arith);
        }
        bytes[n as usize] = (rest % 256) as u8;
        rest = rest / 256;
        n = n + 1;
    }
}

/// Whether `size` bytes at `position` lie inside the payload: answers
/// `Ok(0)` where they do and `Err(1)` where they do not.
pub fn check(packet: &PvPacket, position: u32, size: u32) -> (r: Result<u8, u32>)
    ensures
        packet.start + position + size > packet.end ==> r == Err::<u8, u32>(1),
        packet.start + position + size <= packet.end ==> r == Ok::<u8, u32>(0),
{
    if packet.start as u64 + position as u64 + size as u64 > packet.end as u64 {
        Err(1)
    } else {
        Ok(0)
    }
}

/// Reads the `size` payload bytes at `position` as a number, least
/// significant byte first; `Err(1)` where they do not lie inside the
/// payload.
pub fn get(packet: &PvPacket, position: u32, size: u32) -> (r: Result<u64, u32>)
    requires
        packet.wf(),
        size <= 8,
    ensures
        packet.start + position + size > packet.end ==> r == Err::<u64, u32>(1),
        packet.start + position + size <= packet.end ==> r == Ok::<u64, u32>(
            le_value(
                packet.buffer@.subrange(
                    packet.start + position,
                    packet.start + position + size,
                ),
            ) as u64,
        ),
{
    match check(packet, position, size) {
        Ok(_) => {
            let from: usize = (packet.start + position) as usize;
            let window: &[u8] = vstd::slice::slice_subrange(
                packet.buffer.as_slice(),
                from,
                packet.buffer.len(),
            );
            proof {
                assert(window@.take(size as int) =~= packet.buffer@.subrange(
                    packet.start + position,
                    packet.start + position + size,
                ));
            }
            Ok(endian(window, size))
        },
        Err(_) => Err(1),
    }
}

/// Writes the `size` lowest bytes of `value` over the payload bytes at
/// `position`, least significant byte first, so that reading them back
/// gives the value as far as the bytes hold it; `Err(2)`, and nothing
/// written, where they do not lie inside the payload.
pub fn set(packet: &mut PvPacket, position: u32, size: u32, value: u64) -> (r: Result<
    &PvPacket,
    u32,
>)
    requires
        old(packet).wf(),
        size <= 8,
    ensures
        final(packet).wf(),
        old(packet).start + position + size > old(packet).end ==> r == Err::<&PvPacket, u32>(2)
            && *final(packet) == *old(packet),
        old(packet).start + position + size <= old(packet).end ==> r.is_ok() && *r.unwrap()
            == *final(packet) && final(packet)@ == (PacketView {
            buffer: old(packet).buffer@.take(old(packet).start + position) + (le_bytes(
                value as nat,
                size as nat,
            ) + old(packet).buffer@.skip(old(packet).start + position + size)),
            ..old(packet)@
        }) && le_value(
            final(packet).buffer@.subrange(
                old(packet).start + position,
                old(packet).start + position + size,
            ),
        ) == value as nat % pow256(size as nat),
{
    match check(packet, position, size) {
        Ok(_) => {
            let from: usize = (packet.start + position) as usize;
            let whole: &mut [u8] = packet.buffer.as_mut_slice();
            let (front, tail) = whole.split_at_mut(from);
            set_bits(tail, value, size);
            proof {
                lemma_le_bytes_len(value as nat, size as nat);
                lemma_le_round_trip(value as nat, size as nat);
                assert(packet.buffer@.subrange(from as int, from + size) =~= le_bytes(
                    value as nat,
                    size as nat,
                ));
                assert(front@ =~= old(packet).buffer@.take(old(packet).start + position));
                assert(old(packet).buffer@.subrange(
                    from as int,
                    old(packet).buffer@.len() as int,
                ).skip(size as int) =~= old(packet).buffer@.skip(
                    old(packet).start + position + size,
                ));
            }
            Ok(packet)
        },
        Err(_) => Err(2),
    }
}

/// `le_bytes` gives as many bytes as it was asked for.
pub proof fn lemma_le_bytes_len(value: nat, len: nat)
    ensures
        le_bytes(value, len).len() == len,
    decreases len,
{
    if len > 0 {
        lemma_le_bytes_len(value, (len - 1) as nat);
    }
}

/// A byte behind a byte string adds its value times 256 to the power of the
/// string's length.
pub proof fn lemma_le_value_push(bytes: Seq<u8>, last: u8)
    ensures
        le_value(bytes.push(last)) == le_value(bytes) + last as nat * pow256(bytes.len()),
    decreases bytes.len(),
{
    let longer = bytes.push(last);
    if bytes.len() == 0 {
        assert(longer.drop_first() =~= Seq::<u8>::empty());
        assert(le_value(longer) == longer[0] as nat + 256 * le_value(longer.drop_first()));
        assert(le_value(longer.drop_first()) == 0);
        assert(le_value(bytes) == 0);
        assert(pow256(0) == 1);
    } else {
        let tail = bytes.drop_first();
        lemma_le_value_push(tail, last);
        assert(longer.drop_first() =~= tail.push(last));
        assert(longer[0] == bytes[0]);
        assert(le_value(longer) == longer[0] as nat + 256 * le_value(longer.drop_first()));
        assert(le_value(bytes) == bytes[0] as nat + 256 * le_value(tail));
        assert(pow256(bytes.len()) == 256 * pow256(tail.len()));
        assert(256 * (le_value(tail) + last as nat * pow256(tail.len())) == 256 * le_value(tail)
            + last as nat * (256 * pow256(tail.len()))) by (nonlinear_arith);
    }
}

/// Writing a number and reading it back gives the number, as far as the
/// bytes written hold it: its remainder modulo 256 to the power of their
/// count.
pub proof fn lemma_le_round_trip(value: nat, len: nat)
    ensures
        le_value(le_bytes(value, len)) == value % pow256(len),
    decreases len,
{
    lemma_pow256_monotonic(0, len);
    if len == 0 {
        assert(le_bytes(value, 0) =~= Seq::<u8>::empty());
    } else {
        let below = (len - 1) as nat;
        let scale = pow256(below);
        lemma_pow256_monotonic(0, below);
        lemma_le_round_trip(value, below);
        lemma_le_bytes_len(value, below);
        let top = ((value / scale) % 256) as u8;
        lemma_le_value_push(le_bytes(value, below), top);
        vstd::arithmetic::div_mod::lemma_mod_breakdown(value as int, scale as int, 256);
        assert(scale * 256 == pow256(len)) by (nonlinear_arith)
            requires
                pow256(len) == 256 * scale,
        ;
        assert(top as nat * scale == scale * ((value / scale) % 256)) by (nonlinear_arith)
            requires
                top as nat == (value / scale) % 256,
        ;
    }
}

} // verus!
