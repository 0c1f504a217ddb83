//! The certificate authorities Windows trusts, in the form the engine reads.
//!
//! The engine's TLS library knows nothing of the Windows certificate store, so
//! the store is written out as PEM before each start. That file is the trust
//! anchor for a TLS connection whose settings name no authority of their own.
use vstd::prelude::*;
use crate::message::message;
use crate::text::{chars_of, extend, extend_str, string_of};

verus! {

/// The character of the standard base64 alphabet for a value below 64.
pub open spec fn b64_char(n: nat) -> char {
    if n < 26 {
        ((n + 65) as u32) as char
    } else if n < 52 {
        ((n - 26 + 97) as u32) as char
    } else if n < 62 {
        ((n - 52 + 48) as u32) as char
    } else if n == 62 {
        '+'
    } else {
        '/'
    }
}

/// The four characters of a group of up to three bytes, `=` in place of
/// what the missing bytes would have given.
pub open spec fn b64_group(b: Seq<u8>) -> Seq<char> {
    let second: nat = if b.len() > 1 {
        b[1] as nat
    } else {
        0
    };
    let third: nat = if b.len() > 2 {
        b[2] as nat
    } else {
        0
    };
    let n = b[0] * 65536 + second * 256 + third;
    seq![
        b64_char((n / 262144) as nat % 64),
        b64_char((n / 4096) as nat % 64),
        if b.len() > 1 {
            b64_char((n / 64) as nat % 64)
        } else {
            '='
        },
        if b.len() > 2 {
            b64_char(n as nat % 64)
        } else {
            '='
        },
    ]
}

/// Standard base64 with padding.
pub open spec fn base64_spec(b: Seq<u8>) -> Seq<char>
    decreases b.len(),
{
    if b.len() == 0 {
        Seq::empty()
    } else if b.len() <= 3 {
        b64_group(b)
    } else {
        b64_group(b.take(3)) + base64_spec(b.skip(3))
    }
}

fn b64_char_of(n: u32) -> (c: char)
    requires
        n < 64,
    ensures
        c == b64_char(n as nat),
{
    let table = [
        'A', 'B', 'C', 'D', 'E', 'F', 'G', 'H', 'I', 'J', 'K', 'L', 'M', 'N', 'O', 'P', 'Q', 'R',
        'S', 'T', 'U', 'V', 'W', 'X', 'Y', 'Z', 'a', 'b', 'c', 'd', 'e', 'f', 'g', 'h', 'i', 'j',
        'k', 'l', 'm', 'n', 'o', 'p', 'q', 'r', 's', 't', 'u', 'v', 'w', 'x', 'y', 'z', '0', '1',
        '2', '3', '4', '5', '6', '7', '8', '9', '+', '/',
    ];
    assert(table@.len() == 64);
    let c = table[n as usize];
    assert(c == b64_char(n as nat)) by {
        assert(table@ =~= Seq::new(64, |i: int| b64_char(i as nat)));
    }
    c
}

/// Standard base64 with padding, which is all a PEM body needs.
pub fn base64(bytes: &[u8]) -> (r: String)
    ensures
        r@ == base64_spec(bytes@),
{
    let mut out: Vec<char> = Vec::new();
    let mut i: usize = 0;
    assert(bytes@.skip(0) =~= bytes@);
    while i < bytes.len()
        invariant
            i <= bytes.len(),
            out@ + base64_spec(bytes@.skip(i as int)) == base64_spec(bytes@),
        decreases bytes.len() - i,
    {
        let left = bytes.len() - i;
        let first = bytes[i] as u32;
        let second = if left > 1 {
            bytes[i + 1] as u32
        } else {
            0
        };
        let third = if left > 2 {
            bytes[i + 2] as u32
        } else {
            0
        };
        let n = first * 65536 + second * 256 + third;
        let ghost rest = bytes@.skip(i as int);
        let ghost group = if left > 3 {
            rest.take(3)
        } else {
            rest
        };
        assert(group[0] == first);
        assert(left > 1 ==> group[1] == second);
        assert(left > 2 ==> group[2] == third);
        let ghost before = out@;
        out.push(b64_char_of(n / 262144 % 64));
        out.push(b64_char_of(n / 4096 % 64));
        out.push(if left > 1 { b64_char_of(n / 64 % 64) } else { '=' });
        out.push(if left > 2 { b64_char_of(n % 64) } else { '=' });
        assert(out@ =~= before + b64_group(group));
        if left > 3 {
            assert(rest.skip(3) =~= bytes@.skip(i + 3));
            i += 3;
        } else {
            assert(bytes@.skip(bytes.len() as int) =~= Seq::<u8>::empty());
            assert(base64_spec(Seq::<u8>::empty()) =~= Seq::<char>::empty());
            i = bytes.len();
        }
    }
    assert(out@ + Seq::<char>::empty() =~= out@);
    string_of(&out)
}

/// The text in lines of 64 characters, each ended by a line break.
pub open spec fn wrapped(t: Seq<char>) -> Seq<char>
    decreases t.len(),
{
    if t.len() == 0 {
        Seq::empty()
    } else if t.len() <= 64 {
        t + seq!['\n']
    } else {
        t.take(64) + seq!['\n'] + wrapped(t.skip(64))
    }
}

/// One certificate in PEM.
pub open spec fn pem_block(der: Seq<u8>) -> Seq<char> {
    "-----BEGIN CERTIFICATE-----\n"@ + wrapped(base64_spec(der)) + "-----END CERTIFICATE-----\n"@
}

/// The certificates in PEM, one after another; empty ones are left out.
pub open spec fn pem_spec(certs: Seq<Seq<u8>>) -> Seq<char>
    decreases certs.len(),
{
    if certs.len() == 0 {
        Seq::empty()
    } else if certs.last().len() == 0 {
        pem_spec(certs.drop_last())
    } else {
        pem_spec(certs.drop_last()) + pem_block(certs.last())
    }
}

pub open spec fn nonempty_count(certs: Seq<Seq<u8>>) -> nat
    decreases certs.len(),
{
    if certs.len() == 0 {
        0
    } else {
        nonempty_count(certs.drop_last()) + if certs.last().len() > 0 {
            1nat
        } else {
            0nat
        }
    }
}

pub open spec fn der_views(certs: Seq<Vec<u8>>) -> Seq<Seq<u8>> {
    certs.map_values(|c: Vec<u8>| c@)
}

fn wrap_lines(out: &mut Vec<char>, t: &Vec<char>)
    ensures
        final(out)@ == old(out)@ + wrapped(t@),
{
    let mut i: usize = 0;
    assert(t@.skip(0) =~= t@);
    let ghost start = old(out)@;
    assert(out@ =~= start);
    while i < t.len()
        invariant
            i <= t.len(),
            out@ + wrapped(t@.skip(i as int)) == start + wrapped(t@),
        decreases t.len() - i,
    {
        let end = if t.len() - i > 64 {
            i + 64
        } else {
            t.len()
        };
        let ghost rest = t@.skip(i as int);
        let piece = crate::text::slice(t, i, end);
        let ghost before = out@;
        extend(out, &piece);
        out.push('\n');
        if t.len() - i > 64 {
            assert(piece@ =~= rest.take(64));
            assert(rest.skip(64) =~= t@.skip(end as int));
            assert(out@ + wrapped(t@.skip(end as int)) =~= before + wrapped(rest));
        } else {
            assert(piece@ =~= rest);
            assert(t@.skip(end as int) =~= Seq::<char>::empty());
            assert(out@ + Seq::<char>::empty() =~= before + wrapped(rest));
        }
        i = end;
    }
    assert(t@.skip(i as int) =~= Seq::<char>::empty());
    assert(out@ + Seq::<char>::empty() =~= out@);
}

/// Every certificate in the trusted root and intermediate stores, in the
/// order Windows listed them, written as PEM; a store without a certificate
/// is of no use to the engine.
pub fn windows_pem(certs: &[Vec<u8>]) -> (r: Result<String, String>)
    ensures
        nonempty_count(der_views(certs@)) == 0 <==> r is Err,
        r matches Ok(p) ==> p@ == pem_spec(der_views(certs@)),
        r matches Err(e) ==> e@ == "TRUST_STORE_EMPTY"@,
{
    let mut pem: Vec<char> = Vec::new();
    let mut count: usize = 0;
    let mut i: usize = 0;
    while i < certs.len()
        invariant
            i <= certs.len(),
            pem@ == pem_spec(der_views(certs@).take(i as int)),
            count == nonempty_count(der_views(certs@).take(i as int)),
            count <= i,
        decreases certs.len() - i,
    {
        let ghost ds = der_views(certs@).take(i + 1);
        assert(ds.drop_last() =~= der_views(certs@).take(i as int));
        assert(ds.last() == certs@[i as int]@);
        if certs[i].len() > 0 {
            extend_str(&mut pem, "-----BEGIN CERTIFICATE-----\n");
            let text = chars_of(base64(certs[i].as_slice()).as_str());
            wrap_lines(&mut pem, &text);
            extend_str(&mut pem, "-----END CERTIFICATE-----\n");
            count += 1;
        }
        i += 1;
    }
    assert(der_views(certs@).take(certs.len() as int) =~= der_views(certs@));
    if count == 0 {
        return Err(message("TRUST_STORE_EMPTY"));
    }
    Ok(string_of(&pem))
}

// ---------------------------------------------------------------------
// Reading base64 back
// ---------------------------------------------------------------------

/// The value a character of the standard base64 alphabet (RFC 4648)
/// stands for.
pub open spec fn b64_value(c: char) -> nat {
    let v = c as u32;
    if 65 <= v <= 90 {
        (v - 65) as nat
    } else if 97 <= v <= 122 {
        (v - 71) as nat
    } else if 48 <= v <= 57 {
        (v + 4) as nat
    } else if v == 43 {
        62
    } else {
        63
    }
}

/// The bytes four characters stand for: three, or fewer where `=` pads.
pub open spec fn b64_ungroup(q: Seq<char>) -> Seq<u8> {
    let third: nat = if q[2] == '=' {
        0
    } else {
        b64_value(q[2])
    };
    let fourth: nat = if q[3] == '=' {
        0
    } else {
        b64_value(q[3])
    };
    let n = b64_value(q[0]) * 262144 + b64_value(q[1]) * 4096 + third * 64 + fourth;
    if q[2] == '=' {
        seq![(n / 65536) as u8]
    } else if q[3] == '=' {
        seq![(n / 65536) as u8, ((n / 256) % 256) as u8]
    } else {
        seq![(n / 65536) as u8, ((n / 256) % 256) as u8, (n % 256) as u8]
    }
}

/// Decoding base64 text, four characters at a time.
pub open spec fn base64_decode(t: Seq<char>) -> Seq<u8>
    decreases t.len(),
{
    if t.len() < 4 {
        Seq::empty()
    } else {
        b64_ungroup(t.take(4)) + base64_decode(t.skip(4))
    }
}

/// Each value below 64 has a character of its own, and none of them is `=`.
proof fn lemma_b64_char(x: nat)
    requires
        x < 64,
    ensures
        b64_value(b64_char(x)) == x,
        b64_char(x) != '=',
{
    if x < 26 {
        assert(b64_char(x) as u32 == x + 65);
    } else if x < 52 {
        assert(b64_char(x) as u32 == x - 26 + 97);
    } else if x < 62 {
        assert(b64_char(x) as u32 == x - 52 + 48);
    }
}

proof fn lemma_b64_arith(b0: u32, b1: u32, b2: u32)
    by (bit_vector)
    requires
        b0 < 256,
        b1 < 256,
        b2 < 256,
    ensures
        ((b0 * 65536 + b1 * 256 + b2) / 262144) % 64 * 262144 + ((b0 * 65536 + b1 * 256 + b2) / 4096)
            % 64 * 4096 + ((b0 * 65536 + b1 * 256 + b2) / 64) % 64 * 64 + (b0 * 65536 + b1 * 256 + b2)
            % 64 == b0 * 65536 + b1 * 256 + b2,
        (b0 * 65536 + b1 * 256 + b2) / 65536 == b0,
        ((b0 * 65536 + b1 * 256 + b2) / 256) % 256 == b1,
        (b0 * 65536 + b1 * 256 + b2) % 256 == b2,
        b2 == 0 ==> (b0 * 65536 + b1 * 256 + b2) % 64 == 0,
        b1 == 0 && b2 == 0 ==> ((b0 * 65536 + b1 * 256 + b2) / 64) % 64 == 0,
{
}

/// Four characters of a group read back as the bytes they were made of.
proof fn lemma_group_round_trip(b: Seq<u8>)
    requires
        1 <= b.len() <= 3,
    ensures
        b64_group(b).len() == 4,
        b64_ungroup(b64_group(b)) == b,
{
    let second: nat = if b.len() > 1 {
        b[1] as nat
    } else {
        0
    };
    let third: nat = if b.len() > 2 {
        b[2] as nat
    } else {
        0
    };
    let n = b[0] * 65536 + second * 256 + third;
    lemma_b64_arith(b[0] as u32, second as u32, third as u32);
    let x0 = (n / 262144) as nat % 64;
    let x1 = (n / 4096) as nat % 64;
    let x2 = (n / 64) as nat % 64;
    let x3 = n as nat % 64;
    lemma_b64_char(x0);
    lemma_b64_char(x1);
    lemma_b64_char(x2);
    lemma_b64_char(x3);
    let q = b64_group(b);
    if b.len() == 1 {
        assert(b64_ungroup(q) =~= b);
    } else if b.len() == 2 {
        assert(b64_ungroup(q) =~= b);
    } else {
        assert(b64_ungroup(q) =~= b);
    }
}

/// Four characters for every three bytes or part of three.
proof fn lemma_base64_len(b: Seq<u8>)
    ensures
        base64_spec(b).len() == 4 * ((b.len() + 2) / 3),
    decreases b.len(),
{
    if b.len() > 3 {
        lemma_base64_len(b.skip(3));
        assert(b64_group(b.take(3)).len() == 4);
        let n = b.len();
        assert(4 + 4 * ((n - 3 + 2) / 3) == 4 * ((n + 2) / 3)) by (nonlinear_arith)
            requires
                n > 3,
        ;
    } else if b.len() > 0 {
        assert(b64_group(b).len() == 4);
    }
}

/// Decoding a group followed by more text decodes the group, then the rest.
proof fn lemma_decode_front(g: Seq<char>, rest: Seq<char>)
    requires
        g.len() == 4,
    ensures
        base64_decode(g + rest) == b64_ungroup(g) + base64_decode(rest),
{
    let t = g + rest;
    assert(t.take(4) =~= g);
    assert(t.skip(4) =~= rest);
}

proof fn lemma_base64_round_trip(b: Seq<u8>)
    ensures
        base64_decode(base64_spec(b)) == b,
    decreases b.len(),
{
    if b.len() == 0 {
        assert(base64_decode(base64_spec(b)) =~= b);
    } else if b.len() <= 3 {
        lemma_group_round_trip(b);
        let g = b64_group(b);
        assert(base64_spec(b) == g);
        lemma_decode_front(g, Seq::empty());
        assert(g + Seq::<char>::empty() =~= g);
        assert(b64_ungroup(g) + Seq::<u8>::empty() =~= b);
    } else {
        let head = b.take(3);
        let tail = b.skip(3);
        lemma_group_round_trip(head);
        lemma_base64_round_trip(tail);
        let g = b64_group(head);
        assert(base64_spec(b) == g + base64_spec(tail));
        lemma_decode_front(g, base64_spec(tail));
        assert(head + tail =~= b);
    }
}

/// The base64 of any bytes is the standard encoding of RFC 4648: four
/// characters for every three bytes or part of three, and reading it back
/// gives exactly the bytes it was made of.
pub proof fn law_base64_reads_back(b: Seq<u8>)
    ensures
        base64_spec(b).len() == 4 * ((b.len() + 2) / 3),
        base64_decode(base64_spec(b)) == b,
{
    lemma_base64_len(b);
    lemma_base64_round_trip(b);
}

} // verus!
