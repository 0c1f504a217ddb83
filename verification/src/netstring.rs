//! The frames of the control channel: a netstring is its length in
//! decimal, a colon, that many bytes, and a comma.
use vstd::prelude::*;
use crate::text::owned;

verus! {

/// The largest frame the channel accepts.
pub const FRAME_LIMIT: usize = 1048576;

pub open spec fn is_digit_byte(b: u8) -> bool {
    48 <= b && b <= 57
}

/// The value of a run of decimal digit bytes.
pub open spec fn bytes_value(s: Seq<u8>) -> nat
    decreases s.len(),
{
    if s.len() == 0 {
        0
    } else {
        bytes_value(s.drop_last()) * 10 + (s.last() - 48) as nat
    }
}

/// The decimal digits of a number, as bytes.
pub open spec fn decimal_bytes(n: nat) -> Seq<u8>
    decreases n,
{
    if n < 10 {
        seq![(n + 48) as u8]
    } else {
        decimal_bytes(n / 10).push((n % 10 + 48) as u8)
    }
}

/// Where the length ends: the index of the colon, or why the header is bad.
/// A byte that is not a digit, or an eighth digit, makes the length invalid;
/// running out of bytes is an error of the stream.
pub open spec fn header_end(s: Seq<u8>, i: int) -> Result<int, Seq<char>>
    decreases s.len() - i,
{
    if i < 0 || i >= s.len() {
        Err(eof_message())
    } else if s[i] == 58 {
        Ok(i)
    } else if !is_digit_byte(s[i]) || i >= 7 {
        Err("Invalid IPC frame length"@)
    } else {
        header_end(s, i + 1)
    }
}

/// What reading past the end of the stream reports.
pub open spec fn eof_message() -> Seq<char> {
    "failed to fill whole buffer"@
}

/// The first frame of `s`: its payload and how many bytes it took, or why
/// there is none.
pub open spec fn frame(s: Seq<u8>) -> Result<(Seq<u8>, nat), Seq<char>> {
    match header_end(s, 0) {
        Err(e) => Err(e),
        Ok(c) => {
            let header = s.take(c);
            let n = bytes_value(header);
            if c == 0 || (c > 1 && s[0] == 48) {
                Err("Invalid IPC frame header"@)
            } else if n > FRAME_LIMIT {
                Err("IPC frame too large"@)
            } else if c + 1 + n + 1 > s.len() {
                Err(eof_message())
            } else if s[c + 1 + n] != 44 {
                Err("Invalid IPC frame terminator"@)
            } else {
                Ok((s.subrange(c + 1, c + 1 + n), (c + 2 + n) as nat))
            }
        },
    }
}

pub open spec fn ten_pow(i: nat) -> nat
    decreases i,
{
    if i == 0 {
        1
    } else {
        ten_pow((i - 1) as nat) * 10
    }
}

proof fn lemma_ten_pow_le(i: nat, j: nat)
    requires
        i <= j,
    ensures
        ten_pow(i) <= ten_pow(j),
    decreases j,
{
    if i < j {
        lemma_ten_pow_le(i, (j - 1) as nat);
    }
}

/// The bytes of a frame holding `data`.
pub open spec fn encoded(data: Seq<u8>) -> Seq<u8> {
    decimal_bytes(data.len()) + seq![58u8] + data + seq![44u8]
}

/// Reads the first frame of `input`: its payload and the number of bytes
/// it took, so that the next frame starts there.
pub fn read_netstring(input: &[u8]) -> (r: Result<(Vec<u8>, usize), String>)
    ensures
        match (r, frame(input@)) {
            (Ok((data, used)), Ok((d, n))) => data@ == d && used == n,
            (Err(e), Err(m)) => e@ == m,
            _ => false,
        },
{
    let mut i: usize = 0;
    let mut n: usize = 0;
    loop
        invariant
            i <= 7,
            i <= input.len(),
            header_end(input@, 0) == header_end(input@, i as int),
            forall|j: int| 0 <= j < i ==> is_digit_byte(#[trigger] input@[j]),
            n == bytes_value(input@.take(i as int)),
            n < ten_pow(i as nat),
        ensures
            i <= 7,
            i < input.len(),
            input@[i as int] == 58,
            header_end(input@, 0) == Ok::<int, Seq<char>>(i as int),
            n == bytes_value(input@.take(i as int)),
        decreases input.len() - i,
    {
        if i >= input.len() {
            return Err(owned("failed to fill whole buffer"));
        }
        let b = input[i];
        if b == 58 {
            break;
        }
        if !(48 <= b && b <= 57) || i >= 7 {
            return Err(owned("Invalid IPC frame length"));
        }
        assert(input@.take(i + 1).drop_last() =~= input@.take(i as int));
        assert(ten_pow((i + 1) as nat) == ten_pow(i as nat) * 10);
        assert(ten_pow(7) == 10000000) by {
            reveal_with_fuel(ten_pow, 8);
        }
        assert(i < 7 ==> ten_pow(i as nat) <= 1000000) by {
            lemma_ten_pow_le(i as nat, 6);
            reveal_with_fuel(ten_pow, 7);
        }
        n = n * 10 + (b - 48) as usize;
        i += 1;
    }
    if i == 0 || (i > 1 && input[0] == 48) {
        return Err(owned("Invalid IPC frame header"));
    }
    if n > FRAME_LIMIT {
        return Err(owned("IPC frame too large"));
    }
    let start = i + 1;
    if n >= input.len() || start > input.len() - 1 - n {
        return Err(owned("failed to fill whole buffer"));
    }
    if input[start + n] != 44 {
        return Err(owned("Invalid IPC frame terminator"));
    }
    let mut data: Vec<u8> = Vec::new();
    let mut k: usize = 0;
    while k < n
        invariant
            k <= n,
            start + n < input.len(),
            data@ == input@.subrange(start as int, start + k),
        decreases n - k,
    {
        data.push(input[start + k]);
        assert(input@.subrange(start as int, start + k).push(input@[start + k]) =~= input@.subrange(
            start as int,
            start + k + 1,
        ));
        k += 1;
    }
    Ok((data, start + n + 1))
}

proof fn lemma_decimal_bytes(n: nat)
    ensures
        decimal_bytes(n).len() >= 1,
        forall|j: int| 0 <= j < decimal_bytes(n).len() ==> is_digit_byte(#[trigger] decimal_bytes(n)[j]),
        bytes_value(decimal_bytes(n)) == n,
        n > 0 ==> decimal_bytes(n)[0] != 48,
        n < 10 ==> decimal_bytes(n).len() == 1,
        n >= 10 ==> decimal_bytes(n).len() == decimal_bytes(n / 10).len() + 1,
    decreases n,
{
    if n >= 10 {
        lemma_decimal_bytes(n / 10);
        let d = decimal_bytes(n);
        assert(d.drop_last() =~= decimal_bytes(n / 10));
        assert(d.last() == (n % 10 + 48) as u8);
        assert((n / 10) * 10 + n % 10 == n);
        assert(bytes_value(d) == bytes_value(d.drop_last()) * 10 + (d.last() - 48) as nat);
        assert(d[0] == decimal_bytes(n / 10)[0]);
    } else {
        let d = decimal_bytes(n);
        assert(d.drop_last() =~= Seq::<u8>::empty());
        assert(bytes_value(d) == bytes_value(d.drop_last()) * 10 + (d.last() - 48) as nat);
    }
}

proof fn lemma_decimal_bytes_short(n: nat)
    requires
        n < 10000000,
    ensures
        decimal_bytes(n).len() <= 7,
    decreases n,
{
    lemma_decimal_bytes(n);
    if n >= 10 {
        lemma_decimal_bytes_short(n / 10);
        if n < 1000000 {
            lemma_decimal_bytes_less(n / 10);
        } else {
            lemma_decimal_bytes_less(n / 10);
        }
    }
}

proof fn lemma_decimal_bytes_less(n: nat)
    ensures
        n < 1000000 ==> decimal_bytes(n).len() <= 6,
    decreases n,
{
    lemma_decimal_bytes(n);
    if n >= 10 {
        lemma_decimal_bytes_less5(n / 10);
    }
}

proof fn lemma_decimal_bytes_less5(n: nat)
    ensures
        n < 100000 ==> decimal_bytes(n).len() <= 5,
    decreases n,
{
    lemma_decimal_bytes(n);
    if n >= 10 {
        lemma_decimal_bytes_less4(n / 10);
    }
}

proof fn lemma_decimal_bytes_less4(n: nat)
    ensures
        n < 10000 ==> decimal_bytes(n).len() <= 4,
    decreases n,
{
    lemma_decimal_bytes(n);
    if n >= 10 {
        lemma_decimal_bytes_less3(n / 10);
    }
}

proof fn lemma_decimal_bytes_less3(n: nat)
    ensures
        n < 1000 ==> decimal_bytes(n).len() <= 3,
    decreases n,
{
    lemma_decimal_bytes(n);
    if n >= 10 {
        lemma_decimal_bytes(n / 10);
        if n / 10 >= 10 {
            lemma_decimal_bytes(n / 100);
        }
    }
}

/// Appends the decimal digits of `n` to `out`.
fn push_decimal_bytes(out: &mut Vec<u8>, n: usize)
    ensures
        final(out)@ == old(out)@ + decimal_bytes(n as nat),
    decreases n,
{
    if n >= 10 {
        push_decimal_bytes(out, n / 10);
    }
    let d: u8 = (n % 10) as u8 + 48;
    out.push(d);
    proof {
        if n >= 10 {
            assert(old(out)@ + decimal_bytes(n as nat / 10).push(d) =~= old(out)@ + decimal_bytes(
                n as nat,
            ));
        } else {
            assert(old(out)@.push(d) =~= old(out)@ + decimal_bytes(n as nat));
        }
    }
}

/// Writes one frame holding `data`. Writing into memory cannot fail.
pub fn write_netstring(w: &mut Vec<u8>, data: &[u8]) -> (r: Result<(), String>)
    ensures
        r is Ok,
        final(w)@ == old(w)@ + encoded(data@),
{
    push_decimal_bytes(w, data.len());
    w.push(58);
    let mut k: usize = 0;
    let ghost start = w@;
    while k < data.len()
        invariant
            k <= data.len(),
            w@ == start + data@.take(k as int),
        decreases data.len() - k,
    {
        w.push(data[k]);
        assert(start + data@.take(k as int).push(data@[k as int]) =~= start + data@.take(k + 1));
        k += 1;
    }
    w.push(44);
    assert(data@.take(data.len() as int) =~= data@);
    assert(w@ =~= old(w)@ + encoded(data@));
    Ok(())
}

/// A frame reads back as what was written, whatever follows it: what
/// `write_netstring` writes, `read_netstring` reads, and the next frame
/// starts right after it.
pub proof fn law_a_frame_reads_back(data: Seq<u8>, rest: Seq<u8>)
    requires
        data.len() <= FRAME_LIMIT,
    ensures
        frame(encoded(data) + rest) == Ok::<(Seq<u8>, nat), Seq<char>>((data, encoded(data).len())),
{
    let n = data.len();
    let d = decimal_bytes(n);
    let s = encoded(data) + rest;
    lemma_decimal_bytes(n);
    lemma_decimal_bytes_short(n);
    let c = d.len() as int;
    assert forall|j: int| 0 <= j < c implies s[j] == d[j] by {}
    assert(s[c] == 58);
    assert forall|i: int| 0 <= i <= c implies header_end(s, i) == Ok::<int, Seq<char>>(c) by {
        lemma_header_scan(s, i, c);
    }
    assert(s.take(c) =~= d);
    assert(s.subrange(c + 1, c + 1 + n) =~= data);
    assert(s[c + 1 + n] == 44);
}

proof fn lemma_header_scan(s: Seq<u8>, i: int, c: int)
    requires
        0 <= i <= c < s.len(),
        c <= 7,
        s[c] == 58,
        forall|j: int| 0 <= j < c ==> is_digit_byte(#[trigger] s[j]),
    ensures
        header_end(s, i) == Ok::<int, Seq<char>>(c),
    decreases c - i,
{
    if i < c {
        lemma_header_scan(s, i + 1, c);
    }
}

} // verus!
