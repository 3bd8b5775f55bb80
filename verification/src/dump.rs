//! The hex dump of a packet, as ASCII text.

use vstd::prelude::*;

verus! {

/// The decimal digit for a number below ten.
pub open spec fn digit(n: nat) -> u8 {
    (48 + n) as u8
}

/// The upper-case hexadecimal digit for a number below sixteen.
pub open spec fn hex_digit(n: nat) -> u8 {
    if n < 10 {
        (48 + n) as u8
    } else {
        (55 + n) as u8
    }
}

/// A number in decimal, without leading zeros.
pub open spec fn decimal(n: nat) -> Seq<u8>
    decreases n,
{
    if n < 10 {
        seq![digit(n)]
    } else {
        decimal(n / 10).push(digit(n % 10))
    }
}

/// What follows a byte in the dump: the byte as two hexadecimal digits and a
/// blank; then, unless it is the last byte, another blank after every eighth
/// byte and a line break as well after every sixteenth.
pub open spec fn dump_byte(byte: u8, count: nat, len: nat) -> Seq<u8> {
    let cell = seq![hex_digit(byte as nat / 16), hex_digit(byte as nat % 16), 32u8];
    if count == len {
        cell
    } else if count % 16 == 0 {
        cell + seq![32u8, 10u8]
    } else if count % 8 == 0 {
        cell + seq![32u8]
    } else {
        cell
    }
}

/// The dump of the first `upto` bytes of `bytes`.
pub open spec fn dump_body(bytes: Seq<u8>, upto: nat) -> Seq<u8>
    decreases upto,
{
    if upto == 0 {
        Seq::empty()
    } else {
        dump_body(bytes, (upto - 1) as nat) + dump_byte(bytes[upto - 1], upto, bytes.len())
    }
}

/// The line that opens a dump, up to the chunk address:
/// `---packet dump--- chunk addr: `.
pub open spec fn dump_header() -> Seq<u8> {
    seq![
        45u8, 45u8, 45u8, 112u8, 97u8, 99u8, 107u8, 101u8, 116u8, 32u8, 100u8, 117u8, 109u8, 112u8,
        45u8, 45u8, 45u8, 32u8, 99u8, 104u8, 117u8, 110u8, 107u8, 32u8, 97u8, 100u8, 100u8, 114u8,
        58u8, 32u8,
    ]
}

/// The lines that close a dump: a line break, `-------` and an empty line.
pub open spec fn dump_footer() -> Seq<u8> {
    seq![10u8, 45u8, 45u8, 45u8, 45u8, 45u8, 45u8, 45u8, 10u8, 10u8]
}

/// The whole dump of `bytes` on the chunk at `chunk`: the opening line with
/// the chunk address in decimal, the bytes in hexadecimal, sixteen to a line
/// in two groups of eight, and the closing lines.
pub open spec fn dump_text(chunk: u64, bytes: Seq<u8>) -> Seq<u8> {
    dump_header() + decimal(chunk as nat) + seq![10u8] + dump_body(bytes, bytes.len())
        + dump_footer()
}

/// Appends `bytes` to `out`.
pub fn push_all(out: &mut Vec<u8>, bytes: &[u8])
    ensures
        final(out)@ == old(out)@ + bytes@,
{
    let mut i: usize = 0;
    while i < bytes.len()
        invariant
            i <= bytes@.len(),
            out@ =~= old(out)@ + bytes@.take(i as int),
        decreases bytes@.len() - i,
    {
        out.push(bytes[i]);
        i = i + 1;
    }
    proof {
        assert(bytes@.take(bytes@.len() as int) =~= bytes@);
    }
}

fn push_decimal(out: &mut Vec<u8>, n: u64)
    ensures
        final(out)@ == old(out)@ + decimal(n as nat),
    decreases n,
{
    if n < 10 {
        out.push(48 + n as u8);
        proof {
            assert(out@ =~= old(out)@ + decimal(n as nat));
        }
    } else {
        push_decimal(out, n / 10);
        out.push(48 + (n % 10) as u8);
        proof {
            assert(out@ =~= old(out)@ + decimal(n as nat));
        }
    }
}

fn hex_of(n: u8) -> (c: u8)
    requires
        n < 16,
    ensures
        c == hex_digit(n as nat),
{
    if n < 10 {
        48 + n
    } else {
        55 + n
    }
}

/// The dump of `bytes` on the chunk at `chunk`, as ASCII text. An empty byte
/// string gives the opening and closing lines alone.
pub fn hex_dump(chunk: u64, bytes: &[u8]) -> (text: Vec<u8>)
    ensures
        text@ == dump_text(chunk, bytes@),
{
    let mut text: Vec<u8> = Vec::new();
    push_all(
        &mut text,
        [
            45u8, 45u8, 45u8, 112u8, 97u8, 99u8, 107u8, 101u8, 116u8, 32u8, 100u8, 117u8, 109u8,
            112u8, 45u8, 45u8, 45u8, 32u8, 99u8, 104u8, 117u8, 110u8, 107u8, 32u8, 97u8, 100u8,
            100u8, 114u8, 58u8, 32u8,
        ].as_slice(),
    );
    proof {
        assert(text@ =~= dump_header());
    }
    push_decimal(&mut text, chunk);
    text.push(10u8);
    let ghost head = text@;
    proof {
        assert(head =~= dump_header() + decimal(chunk as nat) + seq![10u8]);
    }
    let len: usize = bytes.len();
    let mut count: usize = 0;
    while count < len
        invariant
            count <= len,
            len == bytes@.len(),
            text@ =~= head + dump_body(bytes@, count as nat),
        decreases len - count,
    {
        let byte: u8 = bytes[count];
        text.push(hex_of(byte / 16));
        text.push(hex_of(byte % 16));
        text.push(32u8);
        count = count + 1;
        if count != len {
            if count % 16 == 0 {
                text.push(32u8);
                text.push(10u8);
            } else if count % 8 == 0 {
                text.push(32u8);
            }
        }
    }
    push_all(&mut text, [10u8, 45u8, 45u8, 45u8, 45u8, 45u8, 45u8, 45u8, 10u8, 10u8].as_slice());
    proof {
        assert([10u8, 45u8, 45u8, 45u8, 45u8, 45u8, 45u8, 45u8, 10u8, 10u8]@ =~= dump_footer());
    }
    text
}

} // verus!
